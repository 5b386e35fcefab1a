use vstd::prelude::*;
use crate::trie::entry::Entry;
use crate::trie::key::{HotKey, bytes_lt, lemma_bytes_lt_transitive, lemma_bytes_lt_asymmetric};
use crate::trie::node::{HOTNode, entries_leaves, sorted_leaves, all_below, keys_fit, same_contents, strictly_increasing, refreshed, entries_within, entries_keys_ok, partial_key_spec};

verus! {

pub proof fn lemma_entries_leaves_single<K, V>(e: Entry<K, V>)
    ensures
        entries_leaves(seq![e]) == e.leaves(),
{
    assert(seq![e].drop_last() =~= Seq::<Entry<K, V>>::empty());
    assert(entries_leaves(Seq::<Entry<K, V>>::empty()) =~= Seq::<(K, V)>::empty());
    assert(Seq::<(K, V)>::empty() + e.leaves() =~= e.leaves());
}

/// The leaves of a concatenation are the concatenation of the leaves.
pub proof fn lemma_entries_leaves_concat<K, V>(a: Seq<Entry<K, V>>, b: Seq<Entry<K, V>>)
    ensures
        entries_leaves(a + b) == entries_leaves(a) + entries_leaves(b),
    decreases b.len(),
{
    if b.len() == 0 {
        assert(a + b =~= a);
        assert(entries_leaves(b) =~= Seq::<(K, V)>::empty());
        assert(entries_leaves(a) + entries_leaves(b) =~= entries_leaves(a));
    } else {
        lemma_entries_leaves_concat(a, b.drop_last());
        assert((a + b).drop_last() =~= a + b.drop_last());
        assert((a + b).last() == b.last());
        assert(entries_leaves(a) + entries_leaves(b) =~= entries_leaves(a) + entries_leaves(b.drop_last())
            + b.last().leaves());
    }
}

/// The leaves of a sequence split around one of its entries.
pub proof fn lemma_entries_leaves_at<K, V>(s: Seq<Entry<K, V>>, i: int)
    requires
        0 <= i < s.len(),
    ensures
        entries_leaves(s) == entries_leaves(s.take(i)) + s[i].leaves() + entries_leaves(s.skip(i + 1)),
        entries_leaves(s.take(i + 1)) == entries_leaves(s.take(i)) + s[i].leaves(),
{
    assert(s =~= s.take(i) + seq![s[i]] + s.skip(i + 1));
    lemma_entries_leaves_concat(s.take(i) + seq![s[i]], s.skip(i + 1));
    lemma_entries_leaves_concat(s.take(i), seq![s[i]]);
    lemma_entries_leaves_single(s[i]);
    assert(s.take(i + 1) =~= s.take(i) + seq![s[i]]);
}

/// Sortedness of a concatenation.
pub proof fn lemma_sorted_concat<K: HotKey, V>(a: Seq<(K, V)>, b: Seq<(K, V)>)
    ensures
        sorted_leaves(a + b) <==> (sorted_leaves(a) && sorted_leaves(b) && all_below(a, b)),
        keys_fit(a + b) <==> (keys_fit(a) && keys_fit(b)),
{
    let c = a + b;
    if sorted_leaves(c) {
        assert forall|i: int, j: int| 0 <= i < j < a.len() implies bytes_lt(
            a[i].0.key_bytes(),
            a[j].0.key_bytes(),
        ) by {
            assert(c[i] == a[i] && c[j] == a[j]);
        }
        assert forall|i: int, j: int| 0 <= i < j < b.len() implies bytes_lt(
            b[i].0.key_bytes(),
            b[j].0.key_bytes(),
        ) by {
            assert(c[a.len() + i] == b[i] && c[a.len() + j] == b[j]);
        }
        assert forall|i: int, j: int| 0 <= i < a.len() && 0 <= j < b.len() implies bytes_lt(
            a[i].0.key_bytes(),
            b[j].0.key_bytes(),
        ) by {
            assert(c[i] == a[i] && c[a.len() + j] == b[j]);
        }
    }
    if sorted_leaves(a) && sorted_leaves(b) && all_below(a, b) {
        assert forall|i: int, j: int| 0 <= i < j < c.len() implies bytes_lt(
            c[i].0.key_bytes(),
            c[j].0.key_bytes(),
        ) by {
            if j < a.len() {
                assert(c[i] == a[i] && c[j] == a[j]);
            } else if i < a.len() {
                assert(c[i] == a[i] && c[j] == b[j - a.len()]);
            } else {
                assert(c[i] == b[i - a.len()] && c[j] == b[j - a.len()]);
            }
        }
    }
    if keys_fit(c) {
        assert forall|i: int| 0 <= i < b.len() implies (#[trigger] b[i]).0.key_bytes().len()
            <= crate::trie::key::max_key_bytes() by {
            assert(c[a.len() + i] == b[i]);
        }
        assert forall|i: int| 0 <= i < a.len() implies (#[trigger] a[i]).0.key_bytes().len()
            <= crate::trie::key::max_key_bytes() by {
            assert(c[i] == a[i]);
        }
    }
    if keys_fit(a) && keys_fit(b) {
        assert forall|i: int| 0 <= i < c.len() implies (#[trigger] c[i]).0.key_bytes().len()
            <= crate::trie::key::max_key_bytes() by {
            if i < a.len() {
                assert(c[i] == a[i]);
            } else {
                assert(c[i] == b[i - a.len()]);
            }
        }
    }
}

/// A key below the first key of a sorted sequence is below all of its keys.
pub proof fn lemma_below_first<K: HotKey, V>(x: Seq<u8>, s: Seq<(K, V)>)
    requires
        sorted_leaves(s),
        s.len() > 0,
        bytes_lt(x, s[0].0.key_bytes()),
    ensures
        forall|j: int| 0 <= j < s.len() ==> bytes_lt(x, (#[trigger] s[j]).0.key_bytes()),
{
    assert forall|j: int| 0 <= j < s.len() implies bytes_lt(x, (#[trigger] s[j]).0.key_bytes()) by {
        if j > 0 {
            lemma_bytes_lt_transitive(x, s[0].0.key_bytes(), s[j].0.key_bytes());
        }
    }
}

/// Entries of a well-formed node: each covers at least one leaf and is
/// represented by its first key, and the leaves split around it.
pub proof fn lemma_wf_entry<K: HotKey, V>(n: HOTNode<K, V>, i: int)
    requires
        n.wf(),
        0 <= i < n.entries@.len(),
    ensures
        n.entries@[i].leaves().len() > 0,
        n.entries@[i].spec_key().key_bytes() == n.entries@[i].leaves()[0].0.key_bytes(),
        sorted_leaves(n.entries@[i].leaves()),
        keys_fit(n.entries@[i].leaves()),
        n.entries@[i].spec_key().key_bytes().len() <= crate::trie::key::max_key_bytes(),
        n.leaves() == entries_leaves(n.entries@.take(i)) + n.entries@[i].leaves() + entries_leaves(
            n.entries@.skip(i + 1),
        ),
        all_below(entries_leaves(n.entries@.take(i)), n.entries@[i].leaves()),
        all_below(n.entries@[i].leaves(), entries_leaves(n.entries@.skip(i + 1))),
        all_below(entries_leaves(n.entries@.take(i)), entries_leaves(n.entries@.skip(i))),
{
    let s = n.entries@;
    let e = s[i];
    lemma_entries_leaves_at(s, i);
    assert(e.child_ok(n.height));
    let p = entries_leaves(s.take(i));
    let q = entries_leaves(s.skip(i + 1));
    lemma_sorted_concat(p + e.leaves(), q);
    lemma_sorted_concat(p, e.leaves());
    assert(s.skip(i) =~= seq![e] + s.skip(i + 1));
    lemma_entries_leaves_concat(seq![e], s.skip(i + 1));
    lemma_entries_leaves_single(e);
    assert(p + e.leaves() + q =~= p + (e.leaves() + q));
    lemma_sorted_concat(p, e.leaves() + q);
    lemma_sorted_concat(e.leaves(), q);
    match e {
        Entry::Leaf(k, v, _) => {
            assert(e.leaves()[0] == (k, v));
        },
        Entry::Child(_, c, _) => {},
    }
    assert(e.leaves()[0] == n.leaves()[p.len() as int]);
}

/// Representative keys of a well-formed node strictly increase, and the
/// leaves of earlier entries lie below those of later ones.
pub proof fn lemma_wf_entries_ordered<K: HotKey, V>(n: HOTNode<K, V>, i: int, j: int)
    requires
        n.wf(),
        0 <= i < j < n.entries@.len(),
    ensures
        bytes_lt(n.entries@[i].spec_key().key_bytes(), n.entries@[j].spec_key().key_bytes()),
        all_below(n.entries@[i].leaves(), n.entries@[j].leaves()),
{
    let s = n.entries@;
    lemma_wf_entry(n, i);
    lemma_wf_entry(n, j);
    let a = s[i].leaves();
    let b = s[j].leaves();
    let rest = entries_leaves(s.skip(i + 1));
    // the leaves of entry j lie inside those after entry i
    let t = s.skip(i + 1);
    lemma_entries_leaves_at(t, j - i - 1);
    assert(t[j - i - 1] == s[j]);
    let off = entries_leaves(t.take(j - i - 1)).len();
    assert forall|x: int, y: int| 0 <= x < a.len() && 0 <= y < b.len() implies bytes_lt(
        #[trigger] a[x].0.key_bytes(),
        #[trigger] b[y].0.key_bytes(),
    ) by {
        assert(rest[off + y] == b[y]);
    }
    assert(bytes_lt(a[0].0.key_bytes(), b[0].0.key_bytes()));
}

/// Entries equal but for partial keys hold the same leaves and the same children.
pub proof fn lemma_same_contents_leaves<K: HotKey, V>(a: Seq<Entry<K, V>>, b: Seq<Entry<K, V>>, h: u16)
    requires
        same_contents(a, b),
    ensures
        entries_leaves(a) == entries_leaves(b),
        forall|i: int| 0 <= i < a.len() ==> #[trigger] a[i].child_ok(h) == b[i].child_ok(h),
        forall|i: int| 0 <= i < a.len() ==> #[trigger] a[i].spec_key() == b[i].spec_key(),
        forall|i: int| 0 <= i < a.len() ==> #[trigger] a[i].leaves() == b[i].leaves(),
    decreases a.len(),
{
    assert forall|i: int| 0 <= i < a.len() implies #[trigger] a[i].leaves() == b[i].leaves()
        && a[i].child_ok(h) == b[i].child_ok(h) && a[i].spec_key() == b[i].spec_key() by {
        assert(a[i].same_content(b[i]));
    }
    if a.len() > 0 {
        assert(same_contents(a.drop_last(), b.drop_last())) by {
            assert forall|i: int| 0 <= i < a.drop_last().len() implies (#[trigger] a.drop_last()[i]).same_content(
                b.drop_last()[i],
            ) by {
                assert(a[i].same_content(b[i]));
            }
        }
        lemma_same_contents_leaves(a.drop_last(), b.drop_last(), h);
        assert(a.last().leaves() == b.last().leaves());
    }
}

/// A node whose entries change only in their partial keys stays well formed,
/// and keeps its leaves, provided its new mask and offset are valid.
pub proof fn lemma_wf_same_contents<K: HotKey, V>(a: HOTNode<K, V>, b: HOTNode<K, V>)
    requires
        a.wf(),
        same_contents(a.entries@, b.entries@),
        a.height == b.height,
        b.byte_offset <= usize::MAX / 8,
        strictly_increasing(b.mask@),
    ensures
        b.wf(),
        b.leaves() == a.leaves(),
{
    lemma_same_contents_leaves(a.entries@, b.entries@, a.height);
    assert forall|i: int| 0 <= i < b.entries@.len() implies (#[trigger] b.entries@[i]).child_ok(b.height) by {
        assert(a.entries@[i].child_ok(a.height));
    }
}


/// Refreshing partial keys changes nothing else.
pub proof fn lemma_refreshed_same<K: HotKey, V>(a: Seq<Entry<K, V>>, b: Seq<Entry<K, V>>, m: Seq<usize>, o: usize)
    requires
        refreshed(a, b, m, o),
    ensures
        same_contents(a, b),
{
    assert forall|i: int| 0 <= i < a.len() implies (#[trigger] a[i]).same_content(b[i]) by {
        assert(b[i] == a[i].with_partial_key(b[i].spec_partial_key()));
    }
}

/// Representative keys of a well-formed node fit.
pub proof fn lemma_wf_reps_fit<K: HotKey, V>(n: HOTNode<K, V>)
    requires
        n.wf(),
    ensures
        forall|i: int|
            0 <= i < n.entries@.len() ==> (#[trigger] n.entries@[i]).spec_key().key_bytes().len()
                <= crate::trie::key::max_key_bytes(),
{
    assert forall|i: int| 0 <= i < n.entries@.len() implies (#[trigger] n.entries@[i]).spec_key().key_bytes().len()
        <= crate::trie::key::max_key_bytes() by {
        lemma_wf_entry(n, i);
    }
}

/// The entries of a well-formed node before and from position `k` hold
/// sorted, fitting leaves that together make up the node's.
pub proof fn lemma_wf_parts<K: HotKey, V>(n: HOTNode<K, V>, k: int)
    requires
        n.wf(),
        0 <= k <= n.entries@.len(),
    ensures
        n.leaves() == entries_leaves(n.entries@.take(k)) + entries_leaves(n.entries@.skip(k)),
        sorted_leaves(entries_leaves(n.entries@.take(k))),
        sorted_leaves(entries_leaves(n.entries@.skip(k))),
        keys_fit(entries_leaves(n.entries@.take(k))),
        keys_fit(entries_leaves(n.entries@.skip(k))),
        all_below(entries_leaves(n.entries@.take(k)), entries_leaves(n.entries@.skip(k))),
{
    let s = n.entries@;
    assert(s =~= s.take(k) + s.skip(k));
    lemma_entries_leaves_concat(s.take(k), s.skip(k));
    lemma_sorted_concat(entries_leaves(s.take(k)), entries_leaves(s.skip(k)));
}

/// A node made of consecutive entries of a well-formed node, at its height,
/// with a valid mask, is well formed.
pub proof fn lemma_wf_slice<K: HotKey, V>(n: HOTNode<K, V>, m: HOTNode<K, V>, lo: int, hi: int)
    requires
        n.wf(),
        0 <= lo <= hi <= n.entries@.len(),
        m.entries@ == n.entries@.subrange(lo, hi),
        m.height == n.height,
        m.byte_offset <= usize::MAX / 8,
        strictly_increasing(m.mask@),
    ensures
        m.wf(),
        m.leaves() == entries_leaves(n.entries@.subrange(lo, hi)),
{
    let s = n.entries@;
    lemma_wf_parts(n, lo);
    let rest = s.skip(lo);
    assert(rest.take(hi - lo) =~= s.subrange(lo, hi));
    assert(rest =~= rest.take(hi - lo) + rest.skip(hi - lo));
    lemma_entries_leaves_concat(rest.take(hi - lo), rest.skip(hi - lo));
    lemma_sorted_concat(entries_leaves(rest.take(hi - lo)), entries_leaves(rest.skip(hi - lo)));
    assert forall|i: int| 0 <= i < m.entries@.len() implies (#[trigger] m.entries@[i]).child_ok(m.height) by {
        assert(m.entries@[i] == s[lo + i]);
    }
}


/// A node keeps its subtree within `fanout` entries exactly when it holds at
/// most `fanout` entries and each of them keeps its own within.
pub proof fn lemma_within_node<K, V>(n: HOTNode<K, V>, fanout: usize)
    ensures
        n.within(fanout) == (n.entries@.len() <= fanout && entries_within(n.entries@, fanout)),
{
}

/// A leaf is within any fanout; a child is within it when its node is.
pub proof fn lemma_within_entry<K, V>(e: Entry<K, V>, fanout: usize)
    ensures
        e.within(fanout) == (match e {
            Entry::Leaf(_, _, _) => true,
            Entry::Child(_, n, _) => n.within(fanout),
        }),
{
}

/// Entries equal but for partial keys are within the same fanouts.
pub proof fn lemma_same_contents_within<K, V>(a: Seq<Entry<K, V>>, b: Seq<Entry<K, V>>, fanout: usize)
    requires
        same_contents(a, b),
    ensures
        entries_within(a, fanout) == entries_within(b, fanout),
{
    assert forall|i: int| 0 <= i < a.len() implies #[trigger] a[i].within(fanout) == b[i].within(fanout) by {
        assert(a[i].same_content(b[i]));
        lemma_within_entry(a[i], fanout);
        lemma_within_entry(b[i], fanout);
        match a[i] {
            Entry::Leaf(_, _, _) => {},
            Entry::Child(_, _, _) => {},
        }
    }
    if entries_within(a, fanout) {
        assert forall|i: int| 0 <= i < b.len() implies #[trigger] b[i].within(fanout) by {
            assert(a[i].within(fanout) == b[i].within(fanout));
        }
    }
    if entries_within(b, fanout) {
        assert forall|i: int| 0 <= i < a.len() implies #[trigger] a[i].within(fanout) by {
            assert(a[i].within(fanout) == b[i].within(fanout));
        }
    }
}

/// Replacing an entry by one within `fanout` keeps the entries within it.
pub proof fn lemma_within_update<K, V>(s: Seq<Entry<K, V>>, i: int, e: Entry<K, V>, fanout: usize)
    requires
        entries_within(s, fanout),
        e.within(fanout),
        0 <= i < s.len(),
    ensures
        entries_within(s.update(i, e), fanout),
{
    assert forall|j: int| 0 <= j < s.update(i, e).len() implies #[trigger] s.update(i, e)[j].within(fanout) by {
        if j != i {
            assert(s.update(i, e)[j] == s[j]);
        }
    }
}

/// Dropping an entry keeps the entries within `fanout`.
pub proof fn lemma_within_remove<K, V>(s: Seq<Entry<K, V>>, i: int, fanout: usize)
    requires
        entries_within(s, fanout),
        0 <= i < s.len(),
    ensures
        entries_within(s.remove(i), fanout),
{
    assert forall|j: int| 0 <= j < s.remove(i).len() implies #[trigger] s.remove(i)[j].within(fanout) by {
        if j < i {
            assert(s.remove(i)[j] == s[j]);
        } else {
            assert(s.remove(i)[j] == s[j + 1]);
        }
    }
}

/// A new partial key does not change what lies below an entry.
pub proof fn lemma_within_partial_key<K, V>(e: Entry<K, V>, pk: u32, fanout: usize)
    ensures
        e.with_partial_key(pk).within(fanout) == e.within(fanout),
{
    lemma_within_entry(e, fanout);
    lemma_within_entry(e.with_partial_key(pk), fanout);
}

/// Every node is the same as itself.
pub proof fn lemma_node_same_as_itself<K, V>(n: HOTNode<K, V>)
    ensures
        n.same_as(n),
    decreases n, 1int,
{
    assert forall|i: int| 0 <= i < n.entries@.len() implies (#[trigger] n.entries@[i]).same_as(n.entries@[i]) by {
        lemma_entry_same_as_itself(n.entries@[i]);
    }
}

/// Every entry is the same as itself.
pub proof fn lemma_entry_same_as_itself<K, V>(e: Entry<K, V>)
    ensures
        e.same_as(e),
    decreases e, 0int,
{
    if let Entry::Child(_, n, _) = e {
        lemma_node_same_as_itself(*n);
    }
}

/// Entries given fresh partial keys under a mask and offset carry those
/// partial keys, and keep their children.
pub proof fn lemma_refreshed_keys<K: HotKey, V>(a: Seq<Entry<K, V>>, b: Seq<Entry<K, V>>, m: Seq<usize>, o: usize)
    requires
        refreshed(a, b, m, o),
        entries_keys_ok(a),
    ensures
        entries_keys_ok(b),
        forall|i: int| 0 <= i < b.len() ==> (#[trigger] b[i]).spec_partial_key() == partial_key_spec(m, o, b[i].spec_key()),
{
    assert forall|i: int| 0 <= i < b.len() implies (#[trigger] b[i]).keys_ok() && b[i].spec_partial_key() == partial_key_spec(
        m,
        o,
        b[i].spec_key(),
    ) by {
        assert(a[i].keys_ok());
        match a[i] {
            Entry::Leaf(_, _, _) => {},
            Entry::Child(_, _, _) => {},
        }
    }
}

/// Entries equal but for partial keys give the same mask bits and the same
/// entries once their partial keys are recomputed.
pub proof fn lemma_same_contents_refresh<K: HotKey, V>(
    a: Seq<Entry<K, V>>,
    b: Seq<Entry<K, V>>,
    c: Seq<Entry<K, V>>,
    m: Seq<usize>,
    o: usize,
)
    requires
        same_contents(a, b),
    ensures
        crate::trie::node::adjacent_diff_bits(a) == crate::trie::node::adjacent_diff_bits(b),
        refreshed(a, c, m, o) == refreshed(b, c, m, o),
{
    assert forall|i: int| 0 <= i < a.len() implies #[trigger] a[i].spec_key() == b[i].spec_key() && a[i].with_partial_key(
        partial_key_spec(m, o, a[i].spec_key()),
    ) == b[i].with_partial_key(partial_key_spec(m, o, b[i].spec_key())) by {
        assert(a[i].same_content(b[i]));
        match a[i] {
            Entry::Leaf(_, _, _) => {},
            Entry::Child(_, _, _) => {},
        }
    }
    assert(crate::trie::node::adjacent_diff_bits(a) =~= crate::trie::node::adjacent_diff_bits(b)) by {
        assert forall|p: usize| #[trigger] crate::trie::node::adjacent_diff_bits(a).contains(p)
            == crate::trie::node::adjacent_diff_bits(b).contains(p) by {
            if crate::trie::node::adjacent_diff_bits(a).contains(p) {
                let j = choose|j: int| 0 <= j < a.len() - 1 && #[trigger] a[j].spec_key().spec_first_differing_bit(
                    &a[j + 1].spec_key(),
                ) == Some(p);
                assert(a[j].spec_key() == b[j].spec_key() && a[j + 1].spec_key() == b[j + 1].spec_key());
            }
            if crate::trie::node::adjacent_diff_bits(b).contains(p) {
                let j = choose|j: int| 0 <= j < b.len() - 1 && #[trigger] b[j].spec_key().spec_first_differing_bit(
                    &b[j + 1].spec_key(),
                ) == Some(p);
                assert(a[j].spec_key() == b[j].spec_key() && a[j + 1].spec_key() == b[j + 1].spec_key());
            }
        }
    }
}

} // verus!
