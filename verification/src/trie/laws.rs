use vstd::prelude::*;
use crate::trie::entry::Entry;
use crate::trie::key::{HotKey, bytes_lt, lemma_bytes_lt_irreflexive};
use crate::trie::node::{HOTNode, entries_leaves, sorted_leaves, leaves_map};
use crate::trie::lemmas::{lemma_entries_leaves_concat, lemma_entries_leaves_single, lemma_sorted_concat, lemma_below_first};
use crate::trie::lookup::{search_trace_in, key_slot, lemma_key_slot_range};
use crate::trie::hot::{HOT, SearchState, spec_next_search_state};
use crate::trie::scan::{collect_range, passes_end};
use crate::trie::key::{lemma_bytes_lt_transitive, lemma_bytes_lt_asymmetric, lemma_bytes_lt_total};

verus! {

/// The leaves of a sequence of entries: those of the first, then the rest.
pub proof fn lemma_entries_leaves_first<K, V>(s: Seq<Entry<K, V>>)
    requires
        s.len() > 0,
    ensures
        entries_leaves(s) == s[0].leaves() + entries_leaves(s.drop_first()),
{
    assert(s =~= seq![s[0]] + s.drop_first());
    lemma_entries_leaves_concat(seq![s[0]], s.drop_first());
    lemma_entries_leaves_single(s[0]);
}

/// In a sorted sequence, the map holds each pair's value under its key.
pub proof fn lemma_leaves_map_at<K: HotKey, V>(s: Seq<(K, V)>, j: int)
    requires
        sorted_leaves(s),
        0 <= j < s.len(),
    ensures
        leaves_map(s).contains_key(s[j].0.key_bytes()),
        leaves_map(s)[s[j].0.key_bytes()] == s[j].1,
    decreases s.len(),
{
    if j < s.len() - 1 {
        let t = s.drop_last();
        assert(sorted_leaves(t)) by {
            assert forall|a: int, b: int| 0 <= a < b < t.len() implies bytes_lt(
                t[a].0.key_bytes(),
                t[b].0.key_bytes(),
            ) by {
                assert(t[a] == s[a] && t[b] == s[b]);
            }
        }
        assert(t[j] == s[j]);
        lemma_leaves_map_at(t, j);
        assert(bytes_lt(s[j].0.key_bytes(), s[s.len() - 1].0.key_bytes()));
        lemma_bytes_lt_irreflexive(s[j].0.key_bytes());
    }
}

/// The map of a sequence holds exactly the keys of its pairs.
pub proof fn lemma_leaves_map_has<K: HotKey, V>(s: Seq<(K, V)>, k: Seq<u8>)
    ensures
        leaves_map(s).contains_key(k) <==> exists|j: int| 0 <= j < s.len() && (#[trigger] s[j]).0.key_bytes() == k,
    decreases s.len(),
{
    if s.len() > 0 {
        let t = s.drop_last();
        lemma_leaves_map_has(t, k);
        if exists|j: int| 0 <= j < t.len() && (#[trigger] t[j]).0.key_bytes() == k {
            let j = choose|j: int| 0 <= j < t.len() && (#[trigger] t[j]).0.key_bytes() == k;
            assert(s[j] == t[j]);
        }
        if exists|j: int| 0 <= j < s.len() && (#[trigger] s[j]).0.key_bytes() == k {
            let j = choose|j: int| 0 <= j < s.len() && (#[trigger] s[j]).0.key_bytes() == k;
            if j < s.len() - 1 {
                assert(t[j] == s[j]);
            }
        }
    }
}

/// The entry a key descends into decides whether the node holds the key and
/// under which value: no node below the first entry holds it, a leaf holds it
/// when the keys are equal, a child when the child holds it.
pub proof fn lemma_slot_map<K: HotKey, V>(n: HOTNode<K, V>, key: K)
    requires
        n.wf(),
    ensures
        ({
            let t = key_slot(n.entries@, key.key_bytes());
            let kb = key.key_bytes();
            &&& -1 <= t < n.entries@.len()
            &&& t < 0 ==> !n@.contains_key(kb)
            &&& 0 <= t ==> match n.entries@[t] {
                Entry::Leaf(k, v, _) => n@.contains_key(kb) == (k.key_bytes() == kb) && (k.key_bytes() == kb
                    ==> n@[kb] == v),
                Entry::Child(_, c, _) => n@.contains_key(kb) == c@.contains_key(kb) && (c@.contains_key(kb)
                    ==> n@[kb] == c@[kb]),
            }
        }),
{
    let s = n.entries@;
    let kb = key.key_bytes();
    let all = n.leaves();
    lemma_key_slot_range(s, kb);
    let t = key_slot(s, kb);
    lemma_leaves_map_has(all, kb);
    if t < 0 {
        if s.len() > 0 {
            crate::trie::insert::lemma_suffix_first(n, 0);
            assert(s.skip(0) =~= s);
            lemma_below_first(kb, all);
            if all.len() > 0 && n@.contains_key(kb) {
                let j = choose|j: int| 0 <= j < all.len() && (#[trigger] all[j]).0.key_bytes() == kb;
                lemma_bytes_lt_irreflexive(kb);
            }
        } else {
            assert(all =~= Seq::<(K, V)>::empty());
        }
    } else {
        crate::trie::lemmas::lemma_wf_entry(n, t);
        let p = entries_leaves(s.take(t));
        let l = s[t].leaves();
        let q = entries_leaves(s.skip(t + 1));
        lemma_bytes_lt_total(l[0].0.key_bytes(), kb);
        assert forall|i: int| 0 <= i < p.len() implies bytes_lt((#[trigger] p[i]).0.key_bytes(), kb) by {
            assert(bytes_lt(p[i].0.key_bytes(), l[0].0.key_bytes()));
            if l[0].0.key_bytes() != kb {
                lemma_bytes_lt_transitive(p[i].0.key_bytes(), l[0].0.key_bytes(), kb);
            }
        }
        if t + 1 < s.len() {
            crate::trie::insert::lemma_suffix_first(n, t + 1);
            lemma_below_first(kb, q);
        } else {
            assert(s.skip(t + 1) =~= Seq::<Entry<K, V>>::empty());
            assert(q =~= Seq::<(K, V)>::empty());
        }
        crate::trie::insert::lemma_has_key_middle(p, l, q, kb);
        lemma_leaves_map_has(l, kb);
        if crate::trie::insert::has_key(l, kb) {
            let j = crate::trie::insert::key_index(l, kb);
            assert(all[p.len() + j] == l[j]);
            lemma_leaves_map_at(all, p.len() + j);
            lemma_leaves_map_at(l, j);
        }
        if n@.contains_key(kb) {
            let j = choose|j: int| 0 <= j < all.len() && (#[trigger] all[j]).0.key_bytes() == kb;
        }
        if leaves_map(l).contains_key(kb) {
            let j = choose|j: int| 0 <= j < l.len() && (#[trigger] l[j]).0.key_bytes() == kb;
            assert(all[p.len() + j] == l[j]);
        }
        match s[t] {
            Entry::Leaf(k, v, _) => {
                assert(l =~= seq![(k, v)]);
            },
            Entry::Child(_, c, _) => {
                assert(l == c.leaves());
            },
        }
    }
}

/// A lookup gives back what was written: after `key` is inserted with
/// `value`, the trie (whose map a lookup returns) maps `key` to `value`, and
/// every other key keeps the value it had, or stays absent.
pub proof fn law_lookup_after_insert<K: HotKey, V>(before: HOT<K, V>, after: HOT<K, V>, key: K, value: V, other: K)
    requires
        after@ == before@.insert(key.key_bytes(), value),
    ensures
        after@.contains_key(key.key_bytes()) && after@[key.key_bytes()] == value,
        other.key_bytes() != key.key_bytes() ==> after@.contains_key(other.key_bytes()) == before@.contains_key(
            other.key_bytes(),
        ) && (before@.contains_key(other.key_bytes()) ==> after@[other.key_bytes()] == before@[other.key_bytes()]),
{
}

/// After `key` is removed, a lookup of it finds nothing, and every other key
/// keeps the value it had, or stays absent.
pub proof fn law_lookup_after_remove<K: HotKey, V>(before: HOT<K, V>, after: HOT<K, V>, key: K, other: K)
    requires
        after@ == before@.remove(key.key_bytes()),
    ensures
        !after@.contains_key(key.key_bytes()),
        other.key_bytes() != key.key_bytes() ==> after@.contains_key(other.key_bytes()) == before@.contains_key(
            other.key_bytes(),
        ) && (before@.contains_key(other.key_bytes()) ==> after@[other.key_bytes()] == before@[other.key_bytes()]),
{
}

proof fn lemma_search_in_finds_leaf<K: HotKey, V>(s: Seq<Entry<K, V>>, node_id: u64, idx: int, pk: u32, key: K, h: u16)
    requires
        forall|i: int| 0 <= i < s.len() ==> (#[trigger] s[i]).child_ok(h),
    ensures
        ({
            let t = search_trace_in(s, node_id, idx, pk, key);
            t.4 is Some && t.5 ==> exists|j: int|
                0 <= j < entries_leaves(s).len() && (#[trigger] entries_leaves(s)[j]).0.key_bytes() == key.key_bytes()
        }),
    decreases s,
{
    if s.len() > 0 {
        lemma_entries_leaves_first(s);
        let t = s.drop_first();
        assert forall|i: int| 0 <= i < t.len() implies (#[trigger] t[i]).child_ok(h) by {
            assert(t[i] == s[i + 1]);
        }
        lemma_search_in_finds_leaf(t, node_id, idx + 1, pk, key, h);
        let first = s[0].leaves();
        let all = entries_leaves(s);
        let rest = entries_leaves(t);
        let tr = search_trace_in(t, node_id, idx + 1, pk, key);
        if s[0].spec_partial_key() != pk && tr.4 is Some && tr.5 {
            let j = choose|j: int| 0 <= j < rest.len() && (#[trigger] rest[j]).0.key_bytes() == key.key_bytes();
            assert(all[first.len() + j] == rest[j]);
        }
        assert(s[0].child_ok(h));
        match s[0] {
            Entry::Leaf(k, v, _) => {
                assert(all[0] == (k, v));
            },
            Entry::Child(_, n, _) => {
                lemma_search_finds_leaf(*n, key);
                let tn = n.search_trace(key);
                if tn.3 is Some && tn.4 {
                    let j = choose|j: int| 0 <= j < n.leaves().len() && (#[trigger] n.leaves()[j]).0.key_bytes()
                        == key.key_bytes();
                    assert(all[j] == first[j]);
                }
            },
        }
    }
}

proof fn lemma_search_finds_leaf<K: HotKey, V>(n: HOTNode<K, V>, key: K)
    requires
        n.wf(),
    ensures
        n.search_trace(key).3 is Some && n.search_trace(key).4 ==> exists|j: int|
            0 <= j < n.leaves().len() && (#[trigger] n.leaves()[j]).0.key_bytes() == key.key_bytes(),
    decreases n,
{
    if n.entries@.len() > 0 {
        lemma_search_in_finds_leaf(n.entries@, n.id, 0, n.spec_extract(key), key, n.height);
        assert(n.leaves() == entries_leaves(n.entries@));
    }
}

/// A search that reports a match has reached a leaf holding the key: the key
/// is in the trie.
pub proof fn law_search_match_sound<K: HotKey, V>(t: HOT<K, V>, key: K)
    requires
        t.wf(),
    ensures
        t.root matches Some(r) ==> (r.search_trace(key).3 is Some && r.search_trace(key).4 ==> t@.contains_key(
            key.key_bytes(),
        )),
{
    if let Some(r) = t.root {
        lemma_search_finds_leaf(r, key);
        if r.search_trace(key).3 is Some && r.search_trace(key).4 {
            let j = choose|j: int| 0 <= j < r.leaves().len() && (#[trigger] r.leaves()[j]).0.key_bytes() == key.key_bytes();
            lemma_leaves_map_has(r.leaves(), key.key_bytes());
        }
    }
}

/// The keys of `s` in order whose bytes lie between `start` and `end`, both included.
pub open spec fn keys_between<K: HotKey, V>(s: Seq<(K, V)>, start: Seq<u8>, end: Seq<u8>) -> Seq<K>
    decreases s.len(),
{
    if s.len() == 0 {
        Seq::empty()
    } else {
        let rest = keys_between(s.drop_first(), start, end);
        if !bytes_lt(s[0].0.key_bytes(), start) && !bytes_lt(end, s[0].0.key_bytes()) {
            seq![s[0].0] + rest
        } else {
            rest
        }
    }
}

proof fn lemma_sorted_drop_first<K: HotKey, V>(s: Seq<(K, V)>)
    requires
        sorted_leaves(s),
        s.len() > 0,
    ensures
        sorted_leaves(s.drop_first()),
        forall|j: int| 0 <= j < s.drop_first().len() ==> bytes_lt(s[0].0.key_bytes(), (#[trigger] s.drop_first()[j]).0.key_bytes()),
{
    let t = s.drop_first();
    assert forall|a: int, b: int| 0 <= a < b < t.len() implies bytes_lt(t[a].0.key_bytes(), t[b].0.key_bytes()) by {
        assert(t[a] == s[a + 1] && t[b] == s[b + 1]);
    }
    assert forall|j: int| 0 <= j < t.len() implies bytes_lt(s[0].0.key_bytes(), (#[trigger] t[j]).0.key_bytes()) by {
        assert(t[j] == s[j + 1]);
    }
}

/// Over sorted pairs, the scan collects exactly the keys within the range.
pub proof fn lemma_collect_sorted<K: HotKey, V>(s: Seq<(K, V)>, start: Seq<u8>, end: Seq<u8>)
    requires
        sorted_leaves(s),
    ensures
        collect_range(s, start, end) == keys_between(s, start, end),
    decreases s.len(),
{
    if s.len() > 0 {
        lemma_sorted_drop_first(s);
        lemma_collect_sorted(s.drop_first(), start, end);
        if bytes_lt(end, s[0].0.key_bytes()) {
            lemma_none_between(s, start, end);
        }
    }
}

/// Pairs all above `end` hold no key within the range.
proof fn lemma_none_between<K: HotKey, V>(s: Seq<(K, V)>, start: Seq<u8>, end: Seq<u8>)
    requires
        sorted_leaves(s),
        s.len() > 0,
        bytes_lt(end, s[0].0.key_bytes()),
    ensures
        keys_between(s, start, end) == Seq::<K>::empty(),
    decreases s.len(),
{
    lemma_sorted_drop_first(s);
    lemma_bytes_lt_asymmetric(end, s[0].0.key_bytes());
    if s.len() > 1 {
        lemma_bytes_lt_transitive(end, s[0].0.key_bytes(), s.drop_first()[0].0.key_bytes());
        lemma_none_between(s.drop_first(), start, end);
    } else {
        assert(s.drop_first() =~= Seq::<(K, V)>::empty());
    }
}

/// Keys whose bytes strictly increase and lie within `start`..=`end`.
pub open spec fn keys_in_order_within<K: HotKey>(ks: Seq<K>, start: Seq<u8>, end: Seq<u8>) -> bool {
    &&& forall|a: int, b: int| 0 <= a < b < ks.len() ==> bytes_lt(#[trigger] ks[a].key_bytes(), #[trigger] ks[b].key_bytes())
    &&& forall|a: int| 0 <= a < ks.len() ==> !bytes_lt((#[trigger] ks[a]).key_bytes(), start) && !bytes_lt(end, ks[a].key_bytes())
}

/// The keys within the range of sorted pairs come in order, each above a
/// key `lo` below all of the pairs.
proof fn lemma_keys_between_ordered<K: HotKey, V>(s: Seq<(K, V)>, start: Seq<u8>, end: Seq<u8>)
    requires
        sorted_leaves(s),
    ensures
        keys_in_order_within(keys_between(s, start, end), start, end),
        forall|a: int| 0 <= a < keys_between(s, start, end).len() ==> exists|i: int|
            0 <= i < s.len() && (#[trigger] keys_between(s, start, end)[a]) == s[i].0,
    decreases s.len(),
{
    if s.len() > 0 {
        lemma_sorted_drop_first(s);
        let t = s.drop_first();
        lemma_keys_between_ordered(t, start, end);
        let rest = keys_between(t, start, end);
        assert forall|a: int| 0 <= a < rest.len() implies exists|i: int| 0 <= i < s.len() && (#[trigger] rest[a]) == s[i].0 by {
            let i = choose|i: int| 0 <= i < t.len() && rest[a] == t[i].0;
            assert(t[i] == s[i + 1]);
        }
        if !bytes_lt(s[0].0.key_bytes(), start) && !bytes_lt(end, s[0].0.key_bytes()) {
            let ks = seq![s[0].0] + rest;
            assert forall|a: int, b: int| 0 <= a < b < ks.len() implies bytes_lt(#[trigger] ks[a].key_bytes(), #[trigger] ks[b].key_bytes()) by {
                if a == 0 {
                    let i = choose|i: int| 0 <= i < t.len() && rest[b - 1] == t[i].0;
                    assert(ks[b] == rest[b - 1]);
                } else {
                    assert(ks[a] == rest[a - 1] && ks[b] == rest[b - 1]);
                }
            }
            assert forall|a: int| 0 <= a < ks.len() implies exists|i: int| 0 <= i < s.len() && (#[trigger] ks[a]) == s[i].0 by {
                if a > 0 {
                    assert(ks[a] == rest[a - 1]);
                }
            }
            assert forall|a: int| 0 <= a < ks.len() implies !bytes_lt((#[trigger] ks[a]).key_bytes(), start) && !bytes_lt(end, ks[a].key_bytes()) by {
                if a > 0 {
                    assert(ks[a] == rest[a - 1]);
                }
            }
        }
    }
}

/// A range scan returns exactly the trie's keys within the range, both ends
/// included: each of them appears, each key returned is one of the trie's,
/// and they come in strictly increasing order.
pub proof fn law_range_scan_within<K: HotKey, V>(t: HOT<K, V>, start: K, end: K)
    requires
        t.wf(),
    ensures
        keys_in_order_within(keys_between(t.leaves(), start.key_bytes(), end.key_bytes()), start.key_bytes(), end.key_bytes()),
        forall|i: int|
            0 <= i < t.leaves().len() && !bytes_lt((#[trigger] t.leaves()[i]).0.key_bytes(), start.key_bytes())
                && !bytes_lt(end.key_bytes(), t.leaves()[i].0.key_bytes()) ==> keys_between(
                t.leaves(),
                start.key_bytes(),
                end.key_bytes(),
            ).contains(t.leaves()[i].0),
        forall|a: int| 0 <= a < keys_between(t.leaves(), start.key_bytes(), end.key_bytes()).len() ==> exists|i: int|
            0 <= i < t.leaves().len() && (#[trigger] keys_between(t.leaves(), start.key_bytes(), end.key_bytes())[a])
                == t.leaves()[i].0,
{
    let s = t.leaves();
    if let Some(r) = t.root {
        lemma_keys_between_ordered(s, start.key_bytes(), end.key_bytes());
    } else {
        assert(s =~= Seq::<(K, V)>::empty());
        assert(keys_between(s, start.key_bytes(), end.key_bytes()) =~= Seq::<K>::empty());
    }
    assert forall|i: int|
        0 <= i < s.len() && !bytes_lt((#[trigger] s[i]).0.key_bytes(), start.key_bytes()) && !bytes_lt(
            end.key_bytes(),
            s[i].0.key_bytes(),
        ) implies keys_between(s, start.key_bytes(), end.key_bytes()).contains(s[i].0) by {
        lemma_keys_between_has(s, i, start.key_bytes(), end.key_bytes());
    }
}

/// A key of `s` within the range is among the keys between.
proof fn lemma_keys_between_has<K: HotKey, V>(s: Seq<(K, V)>, i: int, start: Seq<u8>, end: Seq<u8>)
    requires
        0 <= i < s.len(),
        !bytes_lt(s[i].0.key_bytes(), start),
        !bytes_lt(end, s[i].0.key_bytes()),
    ensures
        keys_between(s, start, end).contains(s[i].0),
    decreases s.len(),
{
    if i == 0 {
        assert(keys_between(s, start, end)[0] == s[0].0);
    } else {
        assert(s.drop_first()[i - 1] == s[i]);
        lemma_keys_between_has(s.drop_first(), i - 1, start, end);
        let rest = keys_between(s.drop_first(), start, end);
        let k = choose|k: int| 0 <= k < rest.len() && rest[k] == s[i].0;
        if !bytes_lt(s[0].0.key_bytes(), start) && !bytes_lt(end, s[0].0.key_bytes()) {
            assert((seq![s[0].0] + rest)[k + 1] == rest[k]);
        }
    }
}


/// The phase of an animation after `k` due steps from `state`.
pub open spec fn ticks(state: SearchState, k: nat, scan_steps: usize, search_steps: Option<usize>, is_match: bool) -> SearchState
    decreases k,
{
    if k == 0 {
        state
    } else {
        ticks(spec_next_search_state(state, scan_steps, search_steps, is_match), (k - 1) as nat, scan_steps, search_steps, is_match)
    }
}

/// From node `i` of a search of `n` steps, two due steps per remaining node
/// reach the leaf.
proof fn lemma_search_ticks(i: usize, n: usize, m: usize, is_match: bool)
    requires
        i < n,
    ensures
        ticks(SearchState::EvaluatingNode(i), (2 * (n - i)) as nat, m, Some(n), is_match) == SearchState::ReachedLeaf,
    decreases n - i,
{
    let a = SearchState::EvaluatingNode(i);
    let b = SearchState::EvaluatingEdge(i);
    assert(spec_next_search_state(a, m, Some(n), is_match) == b);
    let k = (2 * (n - i)) as nat;
    assert(ticks(a, k, m, Some(n), is_match) == ticks(b, (k - 1) as nat, m, Some(n), is_match));
    if i + 1 < n {
        let c = SearchState::EvaluatingNode((i + 1) as usize);
        assert(spec_next_search_state(b, m, Some(n), is_match) == c);
        assert(ticks(b, (k - 1) as nat, m, Some(n), is_match) == ticks(c, (k - 2) as nat, m, Some(n), is_match));
        lemma_search_ticks((i + 1) as usize, n, m, is_match);
        assert((k - 2) as nat == (2 * (n - (i + 1))) as nat);
    } else {
        assert(spec_next_search_state(b, m, Some(n), is_match) == SearchState::ReachedLeaf);
        assert(ticks(SearchState::ReachedLeaf, 0, m, Some(n), is_match) == SearchState::ReachedLeaf);
    }
}

/// From step `i` of a scan of `m` steps, the remaining steps finish it.
proof fn lemma_scan_ticks(i: usize, m: usize, search_steps: Option<usize>, is_match: bool)
    requires
        i < m,
    ensures
        ticks(SearchState::Scanning(i), (m - i) as nat, m, search_steps, is_match) == SearchState::Finished(true),
    decreases m - i,
{
    let a = SearchState::Scanning(i);
    if i + 1 < m {
        assert(spec_next_search_state(a, m, search_steps, is_match) == SearchState::Scanning((i + 1) as usize));
        lemma_scan_ticks((i + 1) as usize, m, search_steps, is_match);
    } else {
        assert(spec_next_search_state(a, m, search_steps, is_match) == SearchState::Finished(true));
        assert(ticks(SearchState::Finished(true), 0, m, search_steps, is_match) == SearchState::Finished(true));
    }
}

/// An animated search of `n` steps, started at its first node, shows each
/// node and then the edge it follows, reaches the leaf after two due steps
/// per node, and finishes one step later with whether the key matched; an
/// animated scan of `m` steps, started at its first step, finishes after
/// `m` due steps; a finished or idle animation stays as it is.
pub proof fn law_animation_finishes(n: usize, m: usize, is_match: bool, done: bool)
    ensures
        n >= 1 ==> ticks(SearchState::EvaluatingNode(0), (2 * n) as nat, m, Some(n), is_match) == SearchState::ReachedLeaf,
        n >= 1 ==> ticks(SearchState::EvaluatingNode(0), (2 * n + 1) as nat, m, Some(n), is_match) == SearchState::Finished(
            is_match,
        ),
        m >= 1 ==> ticks(SearchState::Scanning(0), m as nat, m, Some(n), is_match) == SearchState::Finished(true),
        spec_next_search_state(SearchState::Finished(done), m, Some(n), is_match) == SearchState::Finished(done),
        spec_next_search_state(SearchState::Idle, m, Some(n), is_match) == SearchState::Idle,
{
    if n >= 1 {
        lemma_search_ticks(0, n, m, is_match);
        lemma_ticks_split(SearchState::EvaluatingNode(0), (2 * n) as nat, m, Some(n), is_match);
        assert(spec_next_search_state(SearchState::ReachedLeaf, m, Some(n), is_match) == SearchState::Finished(is_match));
        assert(ticks(SearchState::Finished(is_match), 0, m, Some(n), is_match) == SearchState::Finished(is_match));
    }
    if m >= 1 {
        lemma_scan_ticks(0, m, Some(n), is_match);
    }
}

/// One more due step after `k` of them.
proof fn lemma_ticks_split(state: SearchState, k: nat, scan_steps: usize, search_steps: Option<usize>, is_match: bool)
    ensures
        ticks(state, k + 1, scan_steps, search_steps, is_match) == ticks(
            spec_next_search_state(ticks(state, k, scan_steps, search_steps, is_match), scan_steps, search_steps, is_match),
            0,
            scan_steps,
            search_steps,
            is_match,
        ),
    decreases k,
{
    if k > 0 {
        lemma_ticks_split(spec_next_search_state(state, scan_steps, search_steps, is_match), (k - 1) as nat, scan_steps, search_steps, is_match);
    }
}
} // verus!
