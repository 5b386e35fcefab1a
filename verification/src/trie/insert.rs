use vstd::prelude::*;
use crate::trie::entry::Entry;
use crate::trie::key::{
    HotKey, KeyOrder, bytes_lt, max_key_bytes, lemma_bytes_lt_transitive, lemma_bytes_lt_irreflexive,
    lemma_bytes_lt_asymmetric, lemma_bytes_lt_total,
};
use crate::trie::node::{HOTNode, entries_leaves, sorted_leaves, keys_fit, all_below, leaves_map, sorted_insert, same_contents, entries_within,
    entries_keys_ok, partial_key_spec, all_leaves,
};
use crate::trie::lemmas::{
    lemma_entries_leaves_concat, lemma_entries_leaves_single, lemma_entries_leaves_at, lemma_sorted_concat,
    lemma_below_first, lemma_wf_entry, lemma_wf_entries_ordered, lemma_within_node, lemma_within_entry,
    lemma_same_contents_within,
};
use crate::trie::laws::{lemma_leaves_map_at, lemma_leaves_map_has};
use crate::trie::hot::InsertResult;

verus! {

/// Some pair of `s` has a key with bytes `kb`.
pub open spec fn has_key<K: HotKey, V>(s: Seq<(K, V)>, kb: Seq<u8>) -> bool {
    exists|j: int| 0 <= j < s.len() && (#[trigger] s[j]).0.key_bytes() == kb
}

/// The index of a pair of `s` whose key has bytes `kb`.
pub open spec fn key_index<K: HotKey, V>(s: Seq<(K, V)>, kb: Seq<u8>) -> int {
    choose|j: int| 0 <= j < s.len() && (#[trigger] s[j]).0.key_bytes() == kb
}

/// The key of a leaf entry of a well-formed node is among the node's keys.
pub proof fn lemma_leaf_entry_present<K: HotKey, V>(n: HOTNode<K, V>, i: int)
    requires
        n.wf(),
        0 <= i < n.entries@.len(),
        n.entries@[i] is Leaf,
    ensures
        has_key(n.leaves(), n.entries@[i].spec_key().key_bytes()),
{
    let s = n.entries@;
    lemma_entries_leaves_at(s, i);
    let p = entries_leaves(s.take(i));
    assert(s[i].leaves() =~= seq![(s[i]->Leaf_0, s[i]->Leaf_1)]);
    assert(n.leaves()[p.len() as int] == (s[i]->Leaf_0, s[i]->Leaf_1));
}

/// Entries equal but for partial keys are leaves at the same places.
pub proof fn lemma_same_contents_leaves_kind<K, V>(a: Seq<Entry<K, V>>, b: Seq<Entry<K, V>>)
    requires
        same_contents(a, b),
        all_leaves(a),
    ensures
        all_leaves(b),
{
    assert forall|i: int| 0 <= i < b.len() implies (#[trigger] b[i]) is Leaf by {
        assert(a[i].same_content(b[i]));
    }
}

/// A key below every key of `p` and above every key of `q` is among `p + l + q`
/// only if it is among `l`.
pub proof fn lemma_has_key_middle<K: HotKey, V>(p: Seq<(K, V)>, l: Seq<(K, V)>, q: Seq<(K, V)>, kb: Seq<u8>)
    requires
        forall|i: int| 0 <= i < p.len() ==> bytes_lt((#[trigger] p[i]).0.key_bytes(), kb),
        forall|i: int| 0 <= i < q.len() ==> bytes_lt(kb, (#[trigger] q[i]).0.key_bytes()),
    ensures
        has_key(p + l + q, kb) ==> has_key(l, kb),
{
    let t = p + l + q;
    if has_key(t, kb) {
        let j = key_index(t, kb);
        lemma_bytes_lt_irreflexive(kb);
        if j < p.len() {
            assert(t[j] == p[j]);
        } else if j < p.len() + l.len() {
            assert(t[j] == l[j - p.len()]);
        } else {
            assert(t[j] == q[j - p.len() - l.len()]);
        }
    }
}

/// `new` is `old` with the pair `(key, value)` stored: a pair whose key has
/// the same bytes keeps its key and takes the value; otherwise the pair is
/// inserted at some position.
pub open spec fn inserted<K: HotKey, V>(old: Seq<(K, V)>, key: K, value: V, new: Seq<(K, V)>) -> bool {
    if has_key(old, key.key_bytes()) {
        let j = key_index(old, key.key_bytes());
        new == old.update(j, (old[j].0, value))
    } else {
        exists|p: int| 0 <= p <= old.len() && new == old.insert(p, (key, value))
    }
}

/// The leaves of entries with one inserted.
pub proof fn lemma_leaves_insert_at<K, V>(s: Seq<Entry<K, V>>, i: int, e: Entry<K, V>)
    requires
        0 <= i <= s.len(),
    ensures
        entries_leaves(s.insert(i, e)) == entries_leaves(s.take(i)) + e.leaves() + entries_leaves(s.skip(i)),
        entries_leaves(s) == entries_leaves(s.take(i)) + entries_leaves(s.skip(i)),
{
    assert(s.insert(i, e) =~= s.take(i) + seq![e] + s.skip(i));
    lemma_entries_leaves_concat(s.take(i) + seq![e], s.skip(i));
    lemma_entries_leaves_concat(s.take(i), seq![e]);
    lemma_entries_leaves_single(e);
    assert(s =~= s.take(i) + s.skip(i));
    lemma_entries_leaves_concat(s.take(i), s.skip(i));
}

/// The leaves of entries with one removed.
pub proof fn lemma_leaves_remove_at<K, V>(s: Seq<Entry<K, V>>, i: int)
    requires
        0 <= i < s.len(),
    ensures
        entries_leaves(s.remove(i)) == entries_leaves(s.take(i)) + entries_leaves(s.skip(i + 1)),
        s.remove(i).take(i) == s.take(i),
        s.remove(i).skip(i) == s.skip(i + 1),
{
    assert(s.remove(i) =~= s.take(i) + s.skip(i + 1));
    lemma_entries_leaves_concat(s.take(i), s.skip(i + 1));
    assert(s.remove(i).take(i) =~= s.take(i));
    assert(s.remove(i).skip(i) =~= s.skip(i + 1));
}

/// Storing a pair in a part of a sorted sequence stores it in the whole,
/// when the key lies above what precedes the part and below what follows it.
pub proof fn lemma_inserted_frame<K: HotKey, V>(
    p: Seq<(K, V)>,
    l: Seq<(K, V)>,
    l2: Seq<(K, V)>,
    s: Seq<(K, V)>,
    key: K,
    value: V,
)
    requires
        sorted_leaves(p + l + s),
        keys_fit(p + l + s),
        key.key_bytes().len() <= max_key_bytes(),
        sorted_leaves(l2),
        inserted(l, key, value, l2),
        forall|i: int| 0 <= i < p.len() ==> bytes_lt((#[trigger] p[i]).0.key_bytes(), key.key_bytes()),
        forall|i: int| 0 <= i < s.len() ==> bytes_lt(key.key_bytes(), (#[trigger] s[i]).0.key_bytes()),
    ensures
        inserted(p + l + s, key, value, p + l2 + s),
        sorted_leaves(p + l2 + s),
        keys_fit(p + l2 + s),
{
    let w = p + l + s;
    lemma_sorted_concat(p + l, s);
    lemma_sorted_concat(p, l);
    let kb = key.key_bytes();
    if has_key(l, kb) {
        let j = key_index(l, kb);
        assert(w[p.len() + j] == l[j]);
        assert(l2 == l.update(j, (l[j].0, value)));
        assert(has_key(w, kb));
        let jw = key_index(w, kb);
        if jw != p.len() + j {
            if jw < p.len() + j {
                assert(bytes_lt(w[jw].0.key_bytes(), w[p.len() + j].0.key_bytes()));
            } else {
                assert(bytes_lt(w[p.len() + j].0.key_bytes(), w[jw].0.key_bytes()));
            }
            lemma_bytes_lt_irreflexive(kb);
        }
        assert(p + l2 + s =~= w.update(jw, (w[jw].0, value)));
        assert forall|a: int, b: int| 0 <= a < b < w.len() implies bytes_lt(
            #[trigger] (p + l2 + s)[a].0.key_bytes(),
            #[trigger] (p + l2 + s)[b].0.key_bytes(),
        ) by {
            assert((p + l2 + s)[a].0 == w[a].0 && (p + l2 + s)[b].0 == w[b].0);
        }
        assert forall|a: int| 0 <= a < w.len() implies (#[trigger] (p + l2 + s)[a]).0.key_bytes().len()
            <= max_key_bytes() by {
            assert((p + l2 + s)[a].0 == w[a].0);
        }
    } else {
        let q = choose|q: int| 0 <= q <= l.len() && l2 == l.insert(q, (key, value));
        assert forall|jw: int| 0 <= jw < w.len() implies (#[trigger] w[jw]).0.key_bytes() != kb by {
            if jw < p.len() {
                assert(w[jw] == p[jw]);
                lemma_bytes_lt_irreflexive(kb);
            } else if jw < p.len() + l.len() {
                assert(w[jw] == l[jw - p.len()]);
            } else {
                assert(w[jw] == s[jw - p.len() - l.len()]);
                lemma_bytes_lt_irreflexive(kb);
            }
        }
        assert(p + l2 + s =~= w.insert(p.len() + q, (key, value)));
        let n = p + l2 + s;
        // every pair of the new sequence is an old one or the new pair
        assert forall|a: int| 0 <= a < n.len() implies ((#[trigger] n[a]) == (key, value) && a == p.len() + q) || (
        a < p.len() + q && n[a] == w[a]) || (a > p.len() + q && n[a] == w[a - 1]) by {
        }
        assert forall|a: int, b: int| 0 <= a < b < n.len() implies bytes_lt(
            #[trigger] n[a].0.key_bytes(),
            #[trigger] n[b].0.key_bytes(),
        ) by {
            let m = p.len() + q;
            if a == m {
                // the new key is below every later old pair
                let wb = b - 1;
                if wb < p.len() + l.len() {
                    assert(l2[b - p.len()] == n[b]);
                    assert(l2[q] == n[a]);
                } else {
                    assert(w[wb] == s[wb - p.len() - l.len()]);
                }
            } else if b == m {
                if a < p.len() {
                    assert(w[a] == p[a]);
                } else {
                    assert(l2[a - p.len()] == n[a]);
                    assert(l2[q] == n[b]);
                }
            } else {
                let wa = if a < m { a } else { a - 1 };
                let wb = if b < m { b } else { b - 1 };
                assert(n[a] == w[wa] && n[b] == w[wb]);
                assert(wa < wb);
            }
        }
        assert forall|a: int| 0 <= a < n.len() implies (#[trigger] n[a]).0.key_bytes().len()
            <= max_key_bytes() by {
            let m = p.len() + q;
            if a < m {
                assert(n[a] == w[a]);
            } else if a > m {
                assert(n[a] == w[a - 1]);
            }
        }
    }
}

/// Storing a pair, as `inserted` says, gives the map with the key set to the value.
pub proof fn lemma_inserted_map<K: HotKey, V>(old: Seq<(K, V)>, key: K, value: V, new: Seq<(K, V)>)
    requires
        sorted_leaves(old),
        sorted_leaves(new),
        inserted(old, key, value, new),
    ensures
        leaves_map(new) == leaves_map(old).insert(key.key_bytes(), value),
{
    let kb = key.key_bytes();
    let m = leaves_map(old).insert(kb, value);
    assert forall|k: Seq<u8>| #[trigger] leaves_map(new).contains_key(k) == m.contains_key(k) by {
        lemma_leaves_map_has(new, k);
        lemma_leaves_map_has(old, k);
        if has_key(old, kb) {
            let j = key_index(old, kb);
            assert(new == old.update(j, (old[j].0, value)));
            if exists|i: int| 0 <= i < new.len() && (#[trigger] new[i]).0.key_bytes() == k {
                let i = choose|i: int| 0 <= i < new.len() && (#[trigger] new[i]).0.key_bytes() == k;
                if i != j {
                    assert(new[i] == old[i]);
                }
            }
            if exists|i: int| 0 <= i < old.len() && (#[trigger] old[i]).0.key_bytes() == k {
                let i = choose|i: int| 0 <= i < old.len() && (#[trigger] old[i]).0.key_bytes() == k;
                assert(new[i].0 == old[i].0);
            }
        } else {
            let q = choose|q: int| 0 <= q <= old.len() && new == old.insert(q, (key, value));
            if exists|i: int| 0 <= i < new.len() && (#[trigger] new[i]).0.key_bytes() == k {
                let i = choose|i: int| 0 <= i < new.len() && (#[trigger] new[i]).0.key_bytes() == k;
                if i < q {
                    assert(new[i] == old[i]);
                } else if i > q {
                    assert(new[i] == old[i - 1]);
                }
            }
            if exists|i: int| 0 <= i < old.len() && (#[trigger] old[i]).0.key_bytes() == k {
                let i = choose|i: int| 0 <= i < old.len() && (#[trigger] old[i]).0.key_bytes() == k;
                if i < q {
                    assert(new[i] == old[i]);
                } else {
                    assert(new[i + 1] == old[i]);
                }
            }
            if k == kb {
                assert(new[q] == (key, value));
            }
        }
    }
    assert forall|k: Seq<u8>| #[trigger] leaves_map(new).contains_key(k) implies leaves_map(new)[k] == m[k] by {
        lemma_leaves_map_has(new, k);
        let i = choose|i: int| 0 <= i < new.len() && (#[trigger] new[i]).0.key_bytes() == k;
        lemma_leaves_map_at(new, i);
        if has_key(old, kb) {
            let j = key_index(old, kb);
            assert(new == old.update(j, (old[j].0, value)));
            if i != j {
                assert(new[i] == old[i]);
                lemma_leaves_map_at(old, i);
                assert(new[j].0.key_bytes() == kb);
                lemma_bytes_lt_irreflexive(kb);
                if i < j {
                    assert(bytes_lt(new[i].0.key_bytes(), new[j].0.key_bytes()));
                } else {
                    assert(bytes_lt(new[j].0.key_bytes(), new[i].0.key_bytes()));
                }
            }
        } else {
            let q = choose|q: int| 0 <= q <= old.len() && new == old.insert(q, (key, value));
            assert(new[q].0.key_bytes() == kb);
            lemma_bytes_lt_irreflexive(kb);
            if i < q {
                assert(new[i] == old[i]);
                lemma_leaves_map_at(old, i);
                assert(bytes_lt(new[i].0.key_bytes(), new[q].0.key_bytes()));
            } else if i > q {
                assert(new[i] == old[i - 1]);
                lemma_leaves_map_at(old, i - 1);
                assert(bytes_lt(new[q].0.key_bytes(), new[i].0.key_bytes()));
            }
        }
    }
    assert(leaves_map(new) =~= m);
}

impl<K: HotKey, V> HOTNode<K, V> {
    /// Binary search of the representative keys: the index of the entry whose
    /// key has the bytes of `key`, or the index at which it would be inserted.
    pub(crate) fn find_entry(&self, key: &K) -> (r: Result<usize, usize>)
        requires
            self.wf(),
        ensures
            match r {
                Ok(i) => i < self.entries@.len() && self.entries@[i as int].spec_key().key_bytes() == key.key_bytes(),
                Err(i) => {
                    &&& i <= self.entries@.len()
                    &&& forall|j: int| 0 <= j < i ==> bytes_lt(
                        (#[trigger] self.entries@[j]).spec_key().key_bytes(),
                        key.key_bytes(),
                    )
                    &&& forall|j: int| i <= j < self.entries@.len() ==> bytes_lt(
                        key.key_bytes(),
                        (#[trigger] self.entries@[j]).spec_key().key_bytes(),
                    )
                },
            },
    {
        let mut lo: usize = 0;
        let mut hi: usize = self.entries.len();
        while lo < hi
            invariant
                self.wf(),
                lo <= hi <= self.entries@.len(),
                forall|j: int| 0 <= j < lo ==> bytes_lt(
                    (#[trigger] self.entries@[j]).spec_key().key_bytes(),
                    key.key_bytes(),
                ),
                forall|j: int| hi <= j < self.entries@.len() ==> bytes_lt(
                    key.key_bytes(),
                    (#[trigger] self.entries@[j]).spec_key().key_bytes(),
                ),
            decreases hi - lo,
        {
            let mid = lo + (hi - lo) / 2;
            let ghost m = mid as int;
            match self.entries[mid].key().compare_key(key) {
                KeyOrder::Less => {
                    assert forall|j: int| 0 <= j < mid + 1 implies bytes_lt(
                        (#[trigger] self.entries@[j]).spec_key().key_bytes(),
                        key.key_bytes(),
                    ) by {
                        if j < m {
                            lemma_wf_entries_ordered(*self, j, m);
                            lemma_bytes_lt_transitive(
                                self.entries@[j].spec_key().key_bytes(),
                                self.entries@[m].spec_key().key_bytes(),
                                key.key_bytes(),
                            );
                        }
                    }
                    lo = mid + 1;
                },
                KeyOrder::Greater => {
                    proof {
                        lemma_bytes_lt_total(self.entries@[m].spec_key().key_bytes(), key.key_bytes());
                    }
                    assert forall|j: int| mid <= j < self.entries@.len() implies bytes_lt(
                        key.key_bytes(),
                        (#[trigger] self.entries@[j]).spec_key().key_bytes(),
                    ) by {
                        if j > m {
                            lemma_wf_entries_ordered(*self, m, j);
                            lemma_bytes_lt_transitive(
                                key.key_bytes(),
                                self.entries@[m].spec_key().key_bytes(),
                                self.entries@[j].spec_key().key_bytes(),
                            );
                        }
                    }
                    hi = mid;
                },
                KeyOrder::Equal => {
                    return Ok(mid);
                },
            }
        }
        Err(lo)
    }
}

impl<K, V> InsertResult<K, V> {
    /// The leaves that an insertion result stands for: those of the node it
    /// left, or those of the two halves it split into.
    pub open spec fn result_leaves(self, node: HOTNode<K, V>) -> Seq<(K, V)> {
        match self {
            InsertResult::Split(e1, e2) => e1.leaves() + e2.leaves(),
            _ => node.leaves(),
        }
    }
}

impl<K: HotKey, V> InsertResult<K, V> {
    /// The node left by an insertion, or the two halves it split into, hold
    /// consistent partial keys.
    pub open spec fn result_keys_ok(self, node: HOTNode<K, V>) -> bool {
        match self {
            InsertResult::Split(e1, e2) => e1.keys_ok() && e2.keys_ok(),
            _ => node.partial_keys_ok(),
        }
    }
}

impl<K, V> InsertResult<K, V> {
    /// The node left by an insertion, or the two halves it split into, keep
    /// every node within `fanout` entries.
    pub open spec fn result_within(self, node: HOTNode<K, V>, fanout: usize) -> bool {
        match self {
            InsertResult::Split(e1, e2) => e1.within(fanout) && e2.within(fanout),
            _ => node.within(fanout),
        }
    }
}

/// Halves made of a prefix and the rest of at most `fanout + 1` entries
/// within `fanout` are within `fanout` too.
pub proof fn lemma_split_within<K, V>(s: Seq<Entry<K, V>>, e1: Entry<K, V>, e2: Entry<K, V>, fanout: usize)
    requires
        entries_within(s, fanout),
        s.len() <= fanout + 1,
        e1 matches Entry::Child(_, n1, _) && e2 matches Entry::Child(_, n2, _) && 0 < n1.entries@.len() < s.len()
            && same_contents(s.take(n1.entries@.len() as int), n1.entries@) && same_contents(
            s.skip(n1.entries@.len() as int),
            n2.entries@,
        ),
    ensures
        e1.within(fanout),
        e2.within(fanout),
{
    let n1 = *e1->Child_1;
    let n2 = *e2->Child_1;
    let k = n1.entries@.len() as int;
    assert(entries_within(s.take(k), fanout)) by {
        assert forall|i: int| 0 <= i < s.take(k).len() implies #[trigger] s.take(k)[i].within(fanout) by {
            assert(s.take(k)[i] == s[i]);
        }
    }
    assert(entries_within(s.skip(k), fanout)) by {
        assert forall|i: int| 0 <= i < s.skip(k).len() implies #[trigger] s.skip(k)[i].within(fanout) by {
            assert(s.skip(k)[i] == s[i + k]);
        }
    }
    lemma_same_contents_within(s.take(k), n1.entries@, fanout);
    lemma_same_contents_within(s.skip(k), n2.entries@, fanout);
    lemma_within_node(n1, fanout);
    lemma_within_node(n2, fanout);
    lemma_within_entry(e1, fanout);
    lemma_within_entry(e2, fanout);
}

/// The first bit at which the representative keys of entries `j` and
/// `j + 1` differ.
pub open spec fn pair_bit<K: HotKey, V>(s: Seq<Entry<K, V>>, j: int) -> Option<usize> {
    s[j].spec_key().spec_first_differing_bit(&s[j + 1].spec_key())
}

/// Among the adjacent pairs of entries before `i`, the pair at `j` is the
/// first whose keys differ at the lowest bit.
pub open spec fn first_lowest_pair<K: HotKey, V>(s: Seq<Entry<K, V>>, j: int, i: int) -> bool {
    &&& 0 <= j < i
    &&& pair_bit(s, j) is Some
    &&& forall|k: int| 0 <= k < i && (#[trigger] pair_bit(s, k)) is Some ==> pair_bit(s, j)->0 <= pair_bit(s, k)->0
    &&& forall|k: int| 0 <= k < j && (#[trigger] pair_bit(s, k)) is Some ==> pair_bit(s, j)->0 < pair_bit(s, k)->0
}

/// Where a node of entries `s` splits: after the first adjacent pair whose
/// keys differ at the lowest bit, or in the middle when no adjacent keys differ.
pub open spec fn split_point<K: HotKey, V>(s: Seq<Entry<K, V>>) -> int {
    if exists|j: int| #[trigger] first_lowest_pair(s, j, s.len() - 1) {
        (choose|j: int| #[trigger] first_lowest_pair(s, j, s.len() - 1)) + 1
    } else {
        (s.len() / 2) as int
    }
}

/// Two sound child entries holding nodes of height `h`.
pub open spec fn split_halves<K: HotKey, V>(e1: Entry<K, V>, e2: Entry<K, V>, h: u16) -> bool {
    &&& e1 matches Entry::Child(_, n1, _) && n1.height == h
    &&& e2 matches Entry::Child(_, n2, _) && n2.height == h
    &&& e1.sound()
    &&& e2.sound()
}

/// What an insertion into `old` that left `new` and returned `r` guarantees
/// of the structure: the leaves it stands for are sorted and fit; a node that
/// absorbed the key is well formed at its height, with its first key
/// unchanged (`Done`) or reported (`NewMin`); a split gives two sound halves
/// at the node's height.
pub open spec fn insert_outcome<K: HotKey, V>(old: HOTNode<K, V>, new: HOTNode<K, V>, r: InsertResult<K, V>) -> bool {
    &&& sorted_leaves(r.result_leaves(new))
    &&& keys_fit(r.result_leaves(new))
    &&& r.result_leaves(new).len() > 0
    &&& match r {
        InsertResult::Done => {
            &&& new.wf()
            &&& new.entries@.len() > 0
            &&& new.height == old.height
            &&& old.leaves().len() > 0
            &&& new.leaves()[0].0.key_bytes() == old.leaves()[0].0.key_bytes()
        },
        InsertResult::NewMin(k) => {
            &&& new.wf()
            &&& new.entries@.len() > 0
            &&& new.height == old.height
            &&& k.key_bytes() == new.leaves()[0].0.key_bytes()
        },
        InsertResult::Split(e1, e2) => split_halves(e1, e2, old.height),
    }
}

/// A node that one more entry may split: it holds as many entries as the
/// fanout allows, or so many that one more could give it more mask bits than
/// the 32 of a partial key.
pub open spec fn is_full<K, V>(n: HOTNode<K, V>, fanout: usize) -> bool {
    n.entries@.len() >= fanout || n.entries@.len() >= 33
}

/// A well-formed node with entries: its first entry's key is its first key,
/// which is among its leaves.
pub proof fn lemma_wf_first<K: HotKey, V>(n: HOTNode<K, V>)
    requires
        n.wf(),
        n.entries@.len() > 0,
    ensures
        n.leaves().len() > 0,
        n.entries@[0].spec_key().key_bytes() == n.leaves()[0].0.key_bytes(),
{
    lemma_wf_entry(n, 0);
    assert(n.entries@.take(0) =~= Seq::<Entry<K, V>>::empty());
    assert(entries_leaves(n.entries@.take(0)) =~= Seq::<(K, V)>::empty());
    assert(n.leaves()[0] == n.entries@[0].leaves()[0]);
}

impl<K: HotKey, V> HOTNode<K, V> {
    /// Turns a well-formed node of entries into a sound child entry
    /// represented by a copy of its first key, with partial key zero.
    fn into_child_entry(node: HOTNode<K, V>) -> (e: Entry<K, V>)
        requires
            node.wf(),
            node.entries@.len() > 0,
        ensures
            e matches Entry::Child(_, n, pk) && *n == node && pk == 0,
            e.sound(),
            e.leaves() == node.leaves(),
    {
        proof {
            lemma_wf_first(node);
        }
        let rep = node.entries[0].key().clone_key();
        Entry::Child(rep, Box::new(node), 0)
    }

    /// Splits an overflowing node in two at the most significant bit that
    /// tells two adjacent representative keys apart (the middle when none
    /// does), leaving it empty.
    fn split(&mut self, next_id: &mut u64) -> (r: InsertResult<K, V>)
        requires
            old(self).wf(),
            old(self).entries@.len() >= 2,
        ensures
            r matches InsertResult::Split(e1, e2) && split_halves(e1, e2, old(self).height)
                && e1.leaves() + e2.leaves() == old(self).leaves(),
            // the halves hold a prefix and the rest of the entries
            r matches InsertResult::Split(e1, e2) && e1 matches Entry::Child(_, n1, _) && e2 matches Entry::Child(
                _,
                n2,
                _,
            ) && 0 < n1.entries@.len() < old(self).entries@.len() && n1.entries@.len() == split_point(
                old(self).entries@,
            ) && same_contents(
                old(self).entries@.take(n1.entries@.len() as int),
                n1.entries@,
            ) && same_contents(old(self).entries@.skip(n1.entries@.len() as int), n2.entries@),
            // the node is left empty and the halves carry partial key zero
            final(self).entries@.len() == 0,
            r matches InsertResult::Split(e1, e2) && e1->Child_2 == 0 && e2->Child_2 == 0,
            old(self).partial_keys_ok() ==> r.result_keys_ok(*final(self)),
    {
        proof {
            crate::trie::lemmas::lemma_wf_reps_fit(*self);
        }
        let ghost s = self.entries@;
        let mut best_bit: Option<usize> = None;
        let mut split_idx: usize = self.entries.len() / 2;
        let ghost mut bj: int = 0;
        let mut i: usize = 0;
        while i < self.entries.len() - 1
            invariant
                s == self.entries@,
                s.len() >= 2,
                i <= s.len() - 1,
                1 <= split_idx < s.len(),
                forall|j: int| 0 <= j < s.len() ==> (#[trigger] s[j]).spec_key().key_bytes().len() <= max_key_bytes(),
                best_bit is None ==> split_idx == s.len() / 2 && forall|k: int| 0 <= k < i ==> (#[trigger] pair_bit(s, k)) is None,
                best_bit matches Some(b) ==> first_lowest_pair(s, bj, i as int) && split_idx == bj + 1 && pair_bit(s, bj) == Some(b),
            decreases s.len() - 1 - i,
        {
            let d = self.entries[i].key().first_differing_bit(self.entries[i + 1].key());
            proof {
                assert(d == pair_bit(s, i as int));
            }
            if let Some(pos) = d {
                if best_bit.is_none() || pos < best_bit.unwrap() {
                    best_bit = Some(pos);
                    split_idx = i + 1;
                    proof {
                        bj = i as int;
                    }
                }
            }
            i = i + 1;
        }
        proof {
            let n = s.len() - 1;
            if best_bit is Some {
                assert(first_lowest_pair(s, bj, n));
                let c = choose|j: int| #[trigger] first_lowest_pair(s, j, n);
                assert(c == bj) by {
                    if c < bj {
                        assert(pair_bit(s, c) is Some);
                    } else if c > bj {
                        assert(pair_bit(s, bj) is Some);
                    }
                }
            } else {
                assert(!exists|j: int| #[trigger] first_lowest_pair(s, j, n));
            }
            assert(split_idx == split_point(s));
        }
        let right_entries = self.entries.split_off(split_idx);
        let left_entries = self.entries.split_off(0);
        let ghost old_self = *old(self);

        let mut left_node = HOTNode::new(self.height, self.entries.len(), next_id);
        left_node.entries = left_entries;
        proof {
            assert(left_node.entries@ =~= s.subrange(0, split_idx as int));
            crate::trie::lemmas::lemma_wf_slice(old_self, left_node, 0, split_idx as int);
            crate::trie::lemmas::lemma_wf_reps_fit(left_node);
        }
        proof {
            if old_self.partial_keys_ok() {
                assert forall|i: int| 0 <= i < left_node.entries@.len() implies (#[trigger] left_node.entries@[i]).keys_ok() by {
                    assert(left_node.entries@[i] == s[i]);
                }
            }
        }
        let ghost left_before = left_node;
        left_node.update_mask_from_entries();
        proof {
            crate::trie::lemmas::lemma_wf_same_contents(left_before, left_node);
        }
        let left = Self::into_child_entry(left_node);

        let mut right_node = HOTNode::new(self.height, right_entries.len(), next_id);
        right_node.entries = right_entries;
        proof {
            assert(right_node.entries@ =~= s.subrange(split_idx as int, s.len() as int));
            crate::trie::lemmas::lemma_wf_slice(old_self, right_node, split_idx as int, s.len() as int);
            crate::trie::lemmas::lemma_wf_reps_fit(right_node);
        }
        proof {
            if old_self.partial_keys_ok() {
                assert forall|i: int| 0 <= i < right_node.entries@.len() implies (#[trigger] right_node.entries@[i]).keys_ok() by {
                    assert(right_node.entries@[i] == s[i + split_idx]);
                }
            }
        }
        let ghost right_before = right_node;
        right_node.update_mask_from_entries();
        proof {
            crate::trie::lemmas::lemma_wf_same_contents(right_before, right_node);
        }
        let right = Self::into_child_entry(right_node);
        proof {
            assert(s =~= s.subrange(0, split_idx as int) + s.subrange(split_idx as int, s.len() as int));
            lemma_entries_leaves_concat(s.subrange(0, split_idx as int), s.subrange(split_idx as int, s.len() as int));
            assert(s.take(split_idx as int) =~= s.subrange(0, split_idx as int));
            assert(s.skip(split_idx as int) =~= s.subrange(split_idx as int, s.len() as int));
        }
        InsertResult::Split(left, right)
    }
}

/// The leaves from entry `i` on start with entry `i`'s representative key.
pub proof fn lemma_suffix_first<K: HotKey, V>(n: HOTNode<K, V>, i: int)
    requires
        n.wf(),
        0 <= i < n.entries@.len(),
    ensures
        entries_leaves(n.entries@.skip(i)).len() > 0,
        entries_leaves(n.entries@.skip(i))[0].0.key_bytes() == n.entries@[i].spec_key().key_bytes(),
        sorted_leaves(entries_leaves(n.entries@.skip(i))),
{
    let s = n.entries@;
    lemma_wf_entry(n, i);
    assert(s.skip(i) =~= seq![s[i]] + s.skip(i + 1));
    lemma_entries_leaves_concat(seq![s[i]], s.skip(i + 1));
    lemma_entries_leaves_single(s[i]);
    crate::trie::lemmas::lemma_wf_parts(n, i);
}

impl<K: HotKey, V> HOTNode<K, V> {
    /// Gives the leaf at `idx` a new value.
    fn set_leaf_value(&mut self, idx: usize, value: V)
        requires
            idx < old(self).entries@.len(),
            old(self).entries@[idx as int] is Leaf,
        ensures
            final(self).id == old(self).id,
            final(self).height == old(self).height,
            final(self).mask == old(self).mask,
            final(self).byte_offset == old(self).byte_offset,
            final(self).entries@ == old(self).entries@.update(
                idx as int,
                Entry::Leaf(old(self).entries@[idx as int]->Leaf_0, value, old(self).entries@[idx as int]->Leaf_2),
            ),
    {
        match &mut self.entries[idx] {
            Entry::Leaf(_, v, _) => {
                *v = value;
            },
            Entry::Child(_, _, _) => {},
        }
    }
}

/// The leaves of entries `s` with the halves `e1`, `e2` put in at `idx`.
pub open spec fn leaves_with_halves<K, V>(s: Seq<Entry<K, V>>, idx: int, e1: Entry<K, V>, e2: Entry<K, V>) -> Seq<(K, V)> {
    entries_leaves(s.take(idx)) + e1.leaves() + e2.leaves() + entries_leaves(s.skip(idx))
}

/// A node whose entries are all fine children at its height, with a valid
/// mask and offset, is well formed when its leaves are sorted and fit.
pub proof fn lemma_wf_intro<K: HotKey, V>(n: HOTNode<K, V>)
    requires
        n.byte_offset <= usize::MAX / 8,
        crate::trie::node::strictly_increasing(n.mask@),
        sorted_leaves(n.leaves()),
        keys_fit(n.leaves()),
        forall|i: int| 0 <= i < n.entries@.len() ==> (#[trigger] n.entries@[i]).child_ok(n.height),
    ensures
        n.wf(),
{
}

impl<K: HotKey, V> HOTNode<K, V> {
    /// Puts the two halves of a split child into the gap at `idx`: under an
    /// intermediate node when this node is more than one level above them,
    /// else directly, splitting this node in turn when it overflows.
    fn integrate_child_split(
        &mut self,
        idx: usize,
        e1: Entry<K, V>,
        e2: Entry<K, V>,
        fanout: usize,
        next_id: &mut u64,
    ) -> (r: InsertResult<K, V>)
        requires
            old(self).byte_offset <= usize::MAX / 8,
            crate::trie::node::strictly_increasing(old(self).mask@),
            idx <= old(self).entries@.len(),
            forall|i: int| 0 <= i < old(self).entries@.len() ==> (#[trigger] old(self).entries@[i]).child_ok(old(self).height),
            e1 matches Entry::Child(_, n1, _) && n1.height < old(self).height,
            split_halves(e1, e2, e1->Child_1.height),
            sorted_leaves(leaves_with_halves(old(self).entries@, idx as int, e1, e2)),
            keys_fit(leaves_with_halves(old(self).entries@, idx as int, e1, e2)),
        ensures
            r.result_leaves(*final(self)) == leaves_with_halves(old(self).entries@, idx as int, e1, e2),
            match r {
                InsertResult::Done => {
                    &&& final(self).wf()
                    &&& final(self).entries@.len() > 0
                    &&& final(self).height == old(self).height
                    &&& idx > 0
                },
                InsertResult::NewMin(k) => {
                    &&& final(self).wf()
                    &&& final(self).entries@.len() > 0
                    &&& final(self).height == old(self).height
                    &&& k.key_bytes() == final(self).leaves()[0].0.key_bytes()
                },
                InsertResult::Split(f1, f2) => split_halves(f1, f2, old(self).height),
            },
            r is Split ==> old(self).entries@.len() + 1 >= fanout || old(self).entries@.len() + 1 >= 33,
            fanout >= 2 && old(self).entries@.len() + 1 <= fanout && entries_within(old(self).entries@, fanout)
                && e1.within(fanout) && e2.within(fanout) ==> r.result_within(*final(self), fanout),
            (forall|i: int|
                0 <= i < old(self).entries@.len() ==> (#[trigger] old(self).entries@[i]).spec_partial_key()
                    == partial_key_spec(old(self).mask@, old(self).byte_offset, old(self).entries@[i].spec_key())
                    && old(self).entries@[i].keys_ok()) && e1.keys_ok() && e2.keys_ok() ==> r.result_keys_ok(
                *final(self),
            ),
            // more than one level above the halves: an intermediate node one level
            // above them holds both, in the gap
            old(self).height > e1->Child_1.height + 1 ==> {
                &&& r == (if idx == 0 {
                    InsertResult::<K, V>::NewMin(e1.spec_key())
                } else {
                    InsertResult::<K, V>::Done
                })
                &&& final(self).entries@.len() == old(self).entries@.len() + 1
                &&& final(self).entries@[idx as int] matches Entry::Child(k, c, _) && k == e1.spec_key() && c.height
                    == e1->Child_1.height + 1 && same_contents(seq![e1, e2], c.entries@)
                &&& forall|j: int| 0 <= j < idx ==> #[trigger] final(self).entries@[j] == old(self).entries@[j]
                &&& forall|j: int| idx < j <= old(self).entries@.len() ==> #[trigger] final(self).entries@[j] == old(
                    self,
                ).entries@[j - 1]
            },
            // one level above them: both take the gap, and the node splits when it
            // overflows
            old(self).height <= e1->Child_1.height + 1 ==> {
                &&& old(self).entries@.len() + 2 > fanout ==> r is Split
                &&& old(self).entries@.len() + 2 <= fanout && old(self).entries@.len() + 2 <= 33 ==> !(r is Split)
                &&& !(r is Split) ==> {
                    &&& r == (if idx == 0 {
                        InsertResult::<K, V>::NewMin(e1.spec_key())
                    } else {
                        InsertResult::<K, V>::Done
                    })
                    &&& final(self).entries@.len() == old(self).entries@.len() + 2
                    &&& same_contents(old(self).entries@.insert(idx as int, e1).insert(idx + 1, e2), final(self).entries@)
                }
            },
    {
        let child_height = match &e1 {
            Entry::Child(_, node, _) => node.height,
            Entry::Leaf(_, _, _) => 0,
        };
        let ghost s = self.entries@;
        let ghost p = entries_leaves(s.take(idx as int));
        let ghost q = entries_leaves(s.skip(idx as int));
        let ghost l1 = e1.leaves();
        let ghost l2 = e2.leaves();
        proof {
            assert(p + l1 + l2 + q =~= p + (l1 + l2) + q);
            lemma_sorted_concat(p + (l1 + l2), q);
            lemma_sorted_concat(p, l1 + l2);
            lemma_sorted_concat(l1, l2);
            lemma_leaves_insert_at(s, idx as int, e1);
        }
        if self.height > child_height + 1 {
            let mut intermediate = HOTNode::new(child_height + 1, fanout, next_id);
            let rep_key = e1.key().clone_key();
            intermediate.entries.push(e1);
            intermediate.entries.push(e2);
            proof {
                assert(intermediate.entries@ =~= seq![e1, e2]);
                assert(seq![e1, e2] =~= seq![e1] + seq![e2]);
                lemma_entries_leaves_concat(seq![e1], seq![e2]);
                lemma_entries_leaves_single(e1);
                lemma_entries_leaves_single(e2);
                lemma_wf_intro(intermediate);
                crate::trie::lemmas::lemma_wf_reps_fit(intermediate);
            }
            proof {
                if e1.keys_ok() && e2.keys_ok() {
                    assert forall|i: int| 0 <= i < intermediate.entries@.len() implies (#[trigger] intermediate.entries@[i]).keys_ok() by {
                    }
                }
            }
            let ghost before = intermediate;
            intermediate.update_mask_from_entries();
            proof {
                crate::trie::lemmas::lemma_wf_same_contents(before, intermediate);
                assert(l1.len() > 0);
                assert(intermediate.leaves()[0] == l1[0]);
            }
            let is_idx_0 = idx == 0;
            let pk = self.extract_partial_key(&rep_key);
            let ghost child = Entry::Child(rep_key, Box::new(intermediate), pk);
            self.entries.insert(idx, Entry::Child(rep_key.clone_key(), Box::new(intermediate), pk));
            proof {
                lemma_leaves_insert_at(s, idx as int, child);
                assert(child.leaves() == l1 + l2);
                assert(self.leaves() =~= p + l1 + l2 + q);
                if (forall|i: int|
                    0 <= i < s.len() ==> (#[trigger] s[i]).spec_partial_key() == partial_key_spec(
                        self.mask@,
                        self.byte_offset,
                        s[i].spec_key(),
                    ) && s[i].keys_ok()) && e1.keys_ok() && e2.keys_ok() {
                    assert forall|i: int| 0 <= i < self.entries@.len() implies (#[trigger] self.entries@[i]).spec_partial_key()
                        == partial_key_spec(self.mask@, self.byte_offset, self.entries@[i].spec_key())
                        && self.entries@[i].keys_ok() by {
                        if i < idx {
                            assert(self.entries@[i] == s[i]);
                        } else if i > idx {
                            assert(self.entries@[i] == s[i - 1]);
                        }
                    }
                }
                if fanout >= 2 && s.len() + 1 <= fanout && entries_within(s, fanout) && e1.within(fanout) && e2.within(
                    fanout,
                ) {
                    assert(intermediate.within(fanout)) by {
                        lemma_within_node(intermediate, fanout);
                        lemma_same_contents_within(before.entries@, intermediate.entries@, fanout);
                    }
                    lemma_within_entry(child, fanout);
                    assert forall|i: int| 0 <= i < self.entries@.len() implies #[trigger] self.entries@[i].within(
                        fanout,
                    ) by {
                        if i < idx {
                            assert(self.entries@[i] == s[i]);
                        } else if i > idx {
                            assert(self.entries@[i] == s[i - 1]);
                        }
                    }
                    lemma_within_node(*self, fanout);
                }
                assert forall|i: int| 0 <= i < self.entries@.len() implies (#[trigger] self.entries@[i]).child_ok(self.height) by {
                    if i < idx {
                        assert(self.entries@[i] == s[i]);
                    } else if i > idx {
                        assert(self.entries@[i] == s[i - 1]);
                    }
                }
                lemma_wf_intro(*self);
            }
            if is_idx_0 {
                proof {
                    assert(p.len() == 0) by {
                        assert(s.take(0) =~= Seq::<Entry<K, V>>::empty());
                    }
                    assert(self.leaves()[0] == l1[0]);
                }
                InsertResult::NewMin(rep_key)
            } else {
                InsertResult::Done
            }
        } else {
            let is_idx_0 = idx == 0;
            let ghost t = s.insert(idx as int, e1);
            self.entries.insert(idx, e1);
            let e1_key = self.entries[idx].key().clone_key();
            assert(idx < self.entries.len());
            self.entries.insert(idx + 1, e2);
            proof {
                assert(t.take(idx + 1) =~= s.take(idx as int).push(e1));
                assert(t.skip(idx + 1) =~= s.skip(idx as int));
                lemma_leaves_insert_at(t, idx + 1, e2);
                assert(s.take(idx as int).push(e1) =~= s.take(idx as int) + seq![e1]);
                lemma_entries_leaves_concat(s.take(idx as int), seq![e1]);
                lemma_entries_leaves_single(e1);
                assert(self.leaves() =~= p + l1 + l2 + q);
                assert forall|i: int| 0 <= i < self.entries@.len() implies (#[trigger] self.entries@[i]).child_ok(self.height) by {
                    if i < idx {
                        assert(self.entries@[i] == s[i]);
                    } else if i > idx + 1 {
                        assert(self.entries@[i] == s[i - 2]);
                    }
                }
                lemma_wf_intro(*self);
                crate::trie::lemmas::lemma_wf_reps_fit(*self);
            }
            proof {
                if (forall|i: int| 0 <= i < s.len() ==> (#[trigger] s[i]).keys_ok()) && e1.keys_ok() && e2.keys_ok() {
                    assert forall|i: int| 0 <= i < self.entries@.len() implies (#[trigger] self.entries@[i]).keys_ok() by {
                        if i < idx {
                            assert(self.entries@[i] == s[i]);
                        } else if i > idx + 1 {
                            assert(self.entries@[i] == s[i - 2]);
                        }
                    }
                }
            }
            let ghost before = *self;
            self.update_mask_from_entries();
            proof {
                crate::trie::lemmas::lemma_wf_same_contents(before, *self);
                if fanout >= 2 && s.len() + 1 <= fanout && entries_within(s, fanout) && e1.within(fanout) && e2.within(
                    fanout,
                ) {
                    assert(entries_within(before.entries@, fanout)) by {
                        assert forall|i: int| 0 <= i < before.entries@.len() implies #[trigger] before.entries@[i].within(
                            fanout,
                        ) by {
                            if i < idx {
                                assert(before.entries@[i] == s[i]);
                            } else if i > idx + 1 {
                                assert(before.entries@[i] == s[i - 2]);
                            }
                        }
                    }
                    lemma_same_contents_within(before.entries@, self.entries@, fanout);
                    lemma_within_node(*self, fanout);
                }
            }
            let ghost mid = *self;
            if self.entries.len() > fanout || self.mask.len() > 32 {
                let r = self.split(next_id);
                proof {
                    if fanout >= 2 && s.len() + 1 <= fanout && entries_within(s, fanout) && e1.within(fanout)
                        && e2.within(fanout) {
                        lemma_split_within(mid.entries@, r->Split_0, r->Split_1, fanout);
                    }
                }
                r
            } else if is_idx_0 {
                proof {
                    assert(p.len() == 0) by {
                        assert(s.take(0) =~= Seq::<Entry<K, V>>::empty());
                    }
                    assert(self.leaves()[0] == l1[0]);
                }
                InsertResult::NewMin(e1_key)
            } else {
                InsertResult::Done
            }
        }
    }
}

/// The leaves before entry `i > 0` start with the node's first leaf.
pub proof fn lemma_prefix_first<K: HotKey, V>(n: HOTNode<K, V>, i: int)
    requires
        n.wf(),
        0 < i <= n.entries@.len(),
    ensures
        entries_leaves(n.entries@.take(i)).len() > 0,
        entries_leaves(n.entries@.take(i))[0] == n.leaves()[0],
        n.leaves().len() > 0,
{
    let s = n.entries@;
    lemma_wf_entry(n, 0);
    crate::trie::lemmas::lemma_wf_parts(n, i);
    let t = s.take(i);
    lemma_entries_leaves_at(t, 0);
    assert(t[0] == s[0]);
}

impl<K: HotKey, V> HOTNode<K, V> {
    /// Inserts `key` just after the leaf at `idx`, whose key is below it: at
    /// heights above one the leaf is pushed down into a new node holding both
    /// keys; at the lowest level the key becomes a leaf of this node, which
    /// splits when it overflows.
    fn handle_insert_at(&mut self, idx: usize, key: K, value: V, fanout: usize, next_id: &mut u64) -> (r: InsertResult<K, V>)
        requires
            old(self).wf(),
            idx < old(self).entries@.len(),
            old(self).entries@[idx as int] is Leaf,
            bytes_lt(old(self).entries@[idx as int].spec_key().key_bytes(), key.key_bytes()),
            key.key_bytes().len() <= max_key_bytes(),
            forall|i: int|
                0 <= i < entries_leaves(old(self).entries@.skip(idx + 1)).len() ==> bytes_lt(
                    key.key_bytes(),
                    (#[trigger] entries_leaves(old(self).entries@.skip(idx + 1))[i]).0.key_bytes(),
                ),
        ensures
            insert_outcome(*old(self), *final(self), r),
            inserted(old(self).leaves(), key, value, r.result_leaves(*final(self))),
            r is Split ==> is_full(*old(self), fanout),
            fanout >= 2 && old(self).within(fanout) ==> r.result_within(*final(self), fanout),
            !has_key(old(self).leaves(), key.key_bytes()),
            old(self).partial_keys_ok() ==> r.result_keys_ok(*final(self)),
            // at the lowest level the key becomes one more leaf, splitting a full node
            old(self).height == 1 ==> (old(self).entries@.len() >= fanout ==> r is Split) && (old(self).entries@.len()
                < fanout && old(self).entries@.len() < 32 ==> !(r is Split) && final(self).entries@.len()
                == old(self).entries@.len() + 1),
            old(self).height == 1 && all_leaves(old(self).entries@) && !(r is Split) ==> all_leaves(final(self).entries@),
            // above the lowest level the leaf is pushed down: it becomes a child one
            // level lower holding both keys, the other entries staying in place
            old(self).height > 1 ==> {
                let old_leaf = old(self).entries@[idx as int];
                &&& r == (if idx == 0 {
                    InsertResult::<K, V>::NewMin(old_leaf->Leaf_0)
                } else {
                    InsertResult::<K, V>::Done
                })
                &&& final(self).entries@.len() == old(self).entries@.len()
                &&& final(self).entries@[idx as int] matches Entry::Child(k, c, _) && k == old_leaf->Leaf_0 && c.height
                    == old(self).height - 1 && c.entries@.len() == 2 && c.leaves() == seq![
                    (old_leaf->Leaf_0, old_leaf->Leaf_1),
                    (key, value),
                ]
                &&& forall|j: int|
                    0 <= j < old(self).entries@.len() && j != idx ==> (#[trigger] old(self).entries@[j]).same_content(
                        final(self).entries@[j],
                    )
            },
    {
        let ghost o = *old(self);
        let ghost s = self.entries@;
        let ghost kb = key.key_bytes();
        let ghost p = entries_leaves(s.take(idx as int));
        let ghost sfx = entries_leaves(s.skip(idx + 1));
        proof {
            lemma_wf_entry(o, idx as int);
            crate::trie::lemmas::lemma_wf_reps_fit(o);
            assert forall|i: int| 0 <= i < p.len() implies bytes_lt((#[trigger] p[i]).0.key_bytes(), kb) by {
                assert(s[idx as int].leaves()[0].0.key_bytes() == s[idx as int].spec_key().key_bytes());
                lemma_bytes_lt_transitive(p[i].0.key_bytes(), s[idx as int].spec_key().key_bytes(), kb);
            }
            lemma_entries_leaves_at(s, idx as int);
            let l0 = s[idx as int].leaves();
            lemma_has_key_middle(p, l0, sfx, kb);
            lemma_bytes_lt_irreflexive(kb);
            assert(l0 =~= seq![(s[idx as int]->Leaf_0, s[idx as int]->Leaf_1)]);
            if has_key(l0, kb) {
                assert(l0[key_index(l0, kb)] == l0[0]);
            }
        }
        let is_pushdown = self.height > 1;
        if is_pushdown {
            if let Entry::Leaf(old_k, old_v, _) = self.entries.remove(idx) {
                let ghost l = seq![(old_k, old_v)];
                let mut new_node = HOTNode::new(self.height - 1, 2, next_id);
                let k1_pk = new_node.extract_partial_key(&key);
                let k2_pk = new_node.extract_partial_key(&old_k);
                proof {
                    lemma_bytes_lt_asymmetric(old_k.key_bytes(), kb);
                    assert(s[idx as int].leaves() == l);
                }
                if key.compare_key(&old_k) == KeyOrder::Less {
                    new_node.entries.push(Entry::Leaf(key, value, k1_pk));
                    new_node.entries.push(Entry::Leaf(old_k, old_v, k2_pk));
                    proof {
                        assert(false);
                    }
                } else {
                    let ghost e_old = Entry::Leaf(old_k, old_v, k2_pk);
                    let ghost e_new = Entry::Leaf(key, value, k1_pk);
                    new_node.entries.push(Entry::Leaf(old_k, old_v, k2_pk));
                    new_node.entries.push(Entry::Leaf(key, value, k1_pk));
                    proof {
                        assert(new_node.entries@ =~= seq![e_old] + seq![e_new]);
                        lemma_entries_leaves_concat(seq![e_old], seq![e_new]);
                        lemma_entries_leaves_single(e_old);
                        lemma_entries_leaves_single(e_new);
                        assert(new_node.leaves() =~= l.insert(1, (key, value)));
                        assert(!crate::trie::insert::has_key(l, kb)) by {
                            lemma_bytes_lt_irreflexive(kb);
                        }
                        assert(keys_fit(o.leaves()));
                        assert(keys_fit(s[idx as int].leaves()));
                        lemma_wf_intro(new_node);
                        crate::trie::lemmas::lemma_wf_reps_fit(new_node);
                    }
                }
                let ghost before = new_node;
                new_node.update_mask_from_entries();
                proof {
                    crate::trie::lemmas::lemma_wf_same_contents(before, new_node);
                    lemma_wf_first(new_node);
                }
                let rep_key = new_node.entries[0].key().clone_key();
                let pk = self.extract_partial_key(&rep_key);
                let ghost child = Entry::Child(rep_key, Box::new(new_node), pk);
                let ghost l2 = new_node.leaves();
                self.entries.insert(idx, Entry::Child(rep_key.clone_key(), Box::new(new_node), pk));
                proof {
                    assert(self.entries@ =~= s.update(idx as int, child));
                    lemma_leaves_remove_at(s, idx as int);
                    lemma_leaves_insert_at(s.remove(idx as int), idx as int, child);
                    assert(child.leaves() == l2);
                    assert(o.leaves() =~= p + l + sfx);
                    assert(self.leaves() =~= p + l2 + sfx);
                    lemma_inserted_frame(p, l, l2, sfx, key, value);
                    assert forall|i: int| 0 <= i < self.entries@.len() implies (#[trigger] self.entries@[i]).child_ok(self.height) by {
                        if i != idx {
                            assert(self.entries@[i] == s[i]);
                        }
                    }
                    lemma_wf_intro(*self);
                    crate::trie::lemmas::lemma_wf_reps_fit(*self);
                }
                proof {
                    if o.partial_keys_ok() {
                        assert(new_node.partial_keys_ok()) by {
                            assert forall|i: int| 0 <= i < before.entries@.len() implies (#[trigger] before.entries@[i]).keys_ok() by {
                            }
                        }
                        assert forall|i: int| 0 <= i < self.entries@.len() implies (#[trigger] self.entries@[i]).keys_ok() by {
                            if i != idx {
                                assert(self.entries@[i] == s[i]);
                            }
                        }
                    }
                }
                let ghost before2 = *self;
                self.update_mask_from_entries();
                proof {
                    crate::trie::lemmas::lemma_wf_same_contents(before2, *self);
                    assert(self.entries@[idx as int].same_content(before2.entries@[idx as int]) || before2.entries@[
                        idx as int].same_content(self.entries@[idx as int]));
                    assert(before2.entries@[idx as int] == child);
                    assert(new_node.entries@[0].same_content(before.entries@[0]) || before.entries@[0].same_content(
                        new_node.entries@[0],
                    ));
                    assert forall|j: int| 0 <= j < s.len() && j != idx implies (#[trigger] s[j]).same_content(
                        self.entries@[j],
                    ) by {
                        assert(before2.entries@[j] == s[j]);
                    }
                    if fanout >= 2 && o.within(fanout) {
                        lemma_within_node(o, fanout);
                        assert(new_node.within(fanout)) by {
                            lemma_within_node(new_node, fanout);
                            assert forall|i: int| 0 <= i < before.entries@.len() implies #[trigger] before.entries@[i].within(
                                fanout,
                            ) by {
                                lemma_within_entry(before.entries@[i], fanout);
                            }
                            lemma_same_contents_within(before.entries@, new_node.entries@, fanout);
                        }
                        lemma_within_entry(child, fanout);
                        assert(entries_within(before2.entries@, fanout)) by {
                            assert forall|i: int| 0 <= i < before2.entries@.len() implies #[trigger] before2.entries@[i].within(
                                fanout,
                            ) by {
                                if i != idx {
                                    assert(before2.entries@[i] == s[i]);
                                }
                            }
                        }
                        lemma_same_contents_within(before2.entries@, self.entries@, fanout);
                        lemma_within_node(*self, fanout);
                    }
                }
                if idx == 0 {
                    proof {
                        assert(s.take(0) =~= Seq::<Entry<K, V>>::empty());
                        assert(p =~= Seq::<(K, V)>::empty());
                        assert(self.leaves()[0] == l2[0]);
                    }
                    return InsertResult::NewMin(rep_key);
                }
                proof {
                    lemma_prefix_first(o, idx as int);
                    assert(self.leaves()[0] == p[0]);
                }
            }
            InsertResult::Done
        } else {
            let found = self.find_entry(&key);
            let insert_pos = match found {
                Ok(i) => i,
                Err(i) => i,
            };
            proof {
                lemma_bytes_lt_irreflexive(kb);
                if idx + 1 < s.len() {
                    lemma_suffix_first(o, idx + 1);
                    assert(bytes_lt(kb, s[idx + 1].spec_key().key_bytes()));
                }
                match found {
                    Ok(i) => {
                        if i < idx {
                            lemma_wf_entries_ordered(o, i as int, idx as int);
                            lemma_bytes_lt_transitive(s[i as int].spec_key().key_bytes(), s[idx as int].spec_key().key_bytes(), kb);
                        } else if i > idx + 1 {
                            lemma_wf_entries_ordered(o, idx + 1, i as int);
                            lemma_bytes_lt_transitive(kb, s[idx + 1].spec_key().key_bytes(), s[i as int].spec_key().key_bytes());
                        }
                        assert(false);
                    },
                    Err(i) => {
                        if i <= idx {
                            lemma_bytes_lt_asymmetric(s[idx as int].spec_key().key_bytes(), kb);
                        }
                        if i > idx + 1 {
                            lemma_bytes_lt_asymmetric(s[idx + 1].spec_key().key_bytes(), kb);
                        }
                        assert(i == idx + 1);
                    },
                }
            }
            if insert_pos < self.entries.len() && self.entries[insert_pos].key().compare_key(&key) == KeyOrder::Equal {
                proof {
                    assert(bytes_lt(kb, s[insert_pos as int].spec_key().key_bytes()));
                    lemma_bytes_lt_asymmetric(kb, s[insert_pos as int].spec_key().key_bytes());
                }
                if self.entries[insert_pos].is_leaf() {
                    self.set_leaf_value(insert_pos, value);
                    return InsertResult::Done;
                }
            }
            let pk = self.extract_partial_key(&key);
            let ghost e = Entry::Leaf(key, value, pk);
            self.entries.insert(insert_pos, Entry::Leaf(key.clone_key(), value, pk));
            let ghost pp = entries_leaves(s.take(insert_pos as int));
            proof {
                lemma_entries_leaves_at(s, idx as int);
                assert(s.take(idx + 1) =~= s.take(idx as int) + seq![s[idx as int]]);
                lemma_entries_leaves_concat(s.take(idx as int), seq![s[idx as int]]);
                lemma_entries_leaves_single(s[idx as int]);
                assert(pp =~= p + s[idx as int].leaves());
                assert forall|i: int| 0 <= i < pp.len() implies bytes_lt((#[trigger] pp[i]).0.key_bytes(), kb) by {
                    if i >= p.len() {
                        assert(pp[i] == s[idx as int].leaves()[i - p.len()]);
                        assert(s[idx as int].leaves()[0].0.key_bytes() == s[idx as int].spec_key().key_bytes());
                    }
                }
                lemma_leaves_insert_at(s, insert_pos as int, e);
                lemma_entries_leaves_single(e);
                assert(o.leaves() =~= pp + Seq::<(K, V)>::empty() + sfx);
                assert(self.leaves() =~= pp + seq![(key, value)] + sfx);
                assert(seq![(key, value)] =~= Seq::<(K, V)>::empty().insert(0, (key, value)));
                lemma_inserted_frame(pp, Seq::<(K, V)>::empty(), seq![(key, value)], sfx, key, value);
                assert forall|i: int| 0 <= i < self.entries@.len() implies (#[trigger] self.entries@[i]).child_ok(self.height) by {
                    if i < insert_pos {
                        assert(self.entries@[i] == s[i]);
                    } else if i > insert_pos {
                        assert(self.entries@[i] == s[i - 1]);
                    }
                }
                lemma_wf_intro(*self);
                crate::trie::lemmas::lemma_wf_reps_fit(*self);
            }
            proof {
                if o.partial_keys_ok() {
                    assert forall|i: int| 0 <= i < self.entries@.len() implies (#[trigger] self.entries@[i]).keys_ok() by {
                        if i < insert_pos {
                            assert(self.entries@[i] == s[i]);
                        } else if i > insert_pos {
                            assert(self.entries@[i] == s[i - 1]);
                        }
                    }
                }
            }
            let ghost before = *self;
            self.update_mask_from_entries();
            proof {
                crate::trie::lemmas::lemma_wf_same_contents(before, *self);
                lemma_prefix_first(o, insert_pos as int);
                assert(self.leaves()[0] == pp[0]);
                if fanout >= 2 && o.within(fanout) {
                    lemma_within_node(o, fanout);
                    lemma_within_entry(e, fanout);
                    assert(entries_within(before.entries@, fanout)) by {
                        assert forall|i: int| 0 <= i < before.entries@.len() implies #[trigger] before.entries@[i].within(
                            fanout,
                        ) by {
                            if i < insert_pos {
                                assert(before.entries@[i] == s[i]);
                            } else if i > insert_pos {
                                assert(before.entries@[i] == s[i - 1]);
                            }
                        }
                    }
                    lemma_same_contents_within(before.entries@, self.entries@, fanout);
                    lemma_within_node(*self, fanout);
                }
            }
            let ghost mid = *self;
            if self.entries.len() > fanout || self.mask.len() > 32 {
                let r = self.split(next_id);
                proof {
                    if fanout >= 2 && o.within(fanout) {
                        lemma_split_within(mid.entries@, r->Split_0, r->Split_1, fanout);
                    }
                }
                r
            } else if insert_pos == 0 {
                InsertResult::NewMin(key)
            } else {
                InsertResult::Done
            }
        }
    }
}

impl<K, V> Entry<K, V> {
    /// Whether the entry is a leaf.
    pub fn is_leaf(&self) -> (b: bool)
        ensures
            b == (*self is Leaf),
    {
        match self {
            Entry::Leaf(_, _, _) => true,
            Entry::Child(_, _, _) => false,
        }
    }
}

impl<K: HotKey, V> HOTNode<K, V> {
    /// Inserts into the child at `idx`, whose key is at most `key`, then
    /// records the child's new first key, or takes its two halves in.
    #[verifier::rlimit(80)]
    #[verifier::spinoff_prover]
    fn insert_into_child(&mut self, idx: usize, key: K, value: V, fanout: usize, next_id: &mut u64) -> (r: InsertResult<K, V>)
        requires
            old(self).wf(),
            idx < old(self).entries@.len(),
            old(self).entries@[idx as int] is Child,
            old(self).entries@[idx as int].spec_key().key_bytes() == key.key_bytes() || bytes_lt(
                old(self).entries@[idx as int].spec_key().key_bytes(),
                key.key_bytes(),
            ),
            key.key_bytes().len() <= max_key_bytes(),
            forall|i: int|
                0 <= i < entries_leaves(old(self).entries@.skip(idx + 1)).len() ==> bytes_lt(
                    key.key_bytes(),
                    (#[trigger] entries_leaves(old(self).entries@.skip(idx + 1))[i]).0.key_bytes(),
                ),
        ensures
            insert_outcome(*old(self), *final(self), r),
            inserted(old(self).leaves(), key, value, r.result_leaves(*final(self))),
            r is Split ==> is_full(*old(self), fanout),
            fanout >= 2 && old(self).within(fanout) ==> r.result_within(*final(self), fanout),
            has_key(old(self).leaves(), key.key_bytes()) ==> r is Done && final(self).entries@.len()
                == old(self).entries@.len(),
            old(self).partial_keys_ok() ==> r.result_keys_ok(*final(self)),
            // a new key for a lowest child holding only leaves: the child takes it
            // while it has room; a full child splits, and this node pulls both
            // halves up one level above them, or gives them an intermediate node
            ({
                let c = old(self).entries@[idx as int]->Child_1;
                c.height == 1 && all_leaves(c.entries@) && c.entries@.len() > 0 && !has_key(c.leaves(), key.key_bytes())
                    ==> {
                    &&& c.entries@.len() < fanout && c.entries@.len() < 32 ==> !(r is Split) && final(self).entries@.len()
                        == old(self).entries@.len()
                    &&& c.entries@.len() >= fanout && old(self).height == 2 && old(self).entries@.len() + 1 <= fanout
                        && old(self).entries@.len() < 33 ==> !(r is Split) && final(self).entries@.len() == old(
                        self,
                    ).entries@.len() + 1
                    &&& c.entries@.len() >= fanout && old(self).height > 2 ==> !(r is Split) && final(self).entries@.len()
                        == old(self).entries@.len()
                }
            }),
        decreases old(self).height, 0int,
    {
        let ghost o = *old(self);
        let ghost s = self.entries@;
        let ghost kb = key.key_bytes();
        let ghost p = entries_leaves(s.take(idx as int));
        let ghost sfx = entries_leaves(s.skip(idx + 1));
        let ghost l = s[idx as int].leaves();
        proof {
            lemma_wf_entry(o, idx as int);
            crate::trie::lemmas::lemma_wf_reps_fit(o);
            assert forall|i: int| 0 <= i < p.len() implies bytes_lt((#[trigger] p[i]).0.key_bytes(), kb) by {
                assert(l[0].0.key_bytes() == s[idx as int].spec_key().key_bytes());
                if s[idx as int].spec_key().key_bytes() != kb {
                    lemma_bytes_lt_transitive(p[i].0.key_bytes(), s[idx as int].spec_key().key_bytes(), kb);
                }
            }
            lemma_leaves_remove_at(s, idx as int);
            assert(o.leaves() =~= p + l + sfx);
            lemma_has_key_middle(p, l, sfx, kb);
        }
        let entry = self.entries.remove(idx);
        match entry {
            Entry::Child(rep, mut node, pk) => {
                let ghost old_node = *node;
                proof {
                    if o.partial_keys_ok() {
                        assert(s[idx as int].keys_ok());
                        assert(s[idx as int].spec_partial_key() == partial_key_spec(o.mask@, o.byte_offset, s[idx as int].spec_key()));
                    }
                    assert(s[idx as int].child_ok(o.height));
                }
                let res = node.insert(key, value, fanout, next_id);
                let ghost l2 = res.result_leaves(*node);
                proof {
                    lemma_inserted_frame(p, l, l2, sfx, key, value);
                }
                match res {
                    InsertResult::NewMin(new_k) => {
                        let new_pk = Self::extract_partial_key_static(self.mask.as_slice(), self.byte_offset, &new_k);
                        let ghost child = Entry::Child(new_k, node, new_pk);
                        self.entries.insert(idx, Entry::Child(new_k.clone_key(), node, new_pk));
                        proof {
                            lemma_leaves_insert_at(s.remove(idx as int), idx as int, child);
                            assert(self.leaves() =~= p + l2 + sfx);
                            assert forall|i: int| 0 <= i < self.entries@.len() implies (#[trigger] self.entries@[i]).child_ok(self.height) by {
                                if i != idx {
                                    assert(self.entries@[i] == s[i]);
                                }
                            }
                            lemma_wf_intro(*self);
                            crate::trie::lemmas::lemma_wf_reps_fit(*self);
                        }
                        proof {
                            if o.partial_keys_ok() {
                                assert(old_node.partial_keys_ok());
                                assert(node.partial_keys_ok());
                                assert(self.entries@[idx as int].keys_ok());
                                assert forall|i: int| 0 <= i < self.entries@.len() implies (#[trigger] self.entries@[i]).keys_ok() by {
                                    if i != idx {
                                        assert(self.entries@[i] == s[i]);
                                    }
                                }
                            }
                        }
                        let ghost before = *self;
                        self.update_mask_from_entries();
                        proof {
                            crate::trie::lemmas::lemma_wf_same_contents(before, *self);
                            if fanout >= 2 && o.within(fanout) {
                                lemma_within_node(o, fanout);
                                lemma_within_entry(s[idx as int], fanout);
                                lemma_within_entry(child, fanout);
                                assert(entries_within(before.entries@, fanout)) by {
                                    assert forall|i: int| 0 <= i < before.entries@.len() implies #[trigger] before.entries@[i].within(
                                        fanout,
                                    ) by {
                                        if i != idx {
                                            assert(before.entries@[i] == s[i]);
                                        }
                                    }
                                }
                                lemma_same_contents_within(before.entries@, self.entries@, fanout);
                                lemma_within_node(*self, fanout);
                            }
                        }
                        if idx == 0 {
                            proof {
                                assert(s.take(0) =~= Seq::<Entry<K, V>>::empty());
                                assert(p =~= Seq::<(K, V)>::empty());
                                assert(self.leaves()[0] == l2[0]);
                            }
                            InsertResult::NewMin(new_k)
                        } else {
                            proof {
                                lemma_prefix_first(o, idx as int);
                                assert(self.leaves()[0] == p[0]);
                            }
                            InsertResult::Done
                        }
                    },
                    InsertResult::Split(e1, e2) => {
                        proof {
                            assert(s.remove(idx as int).take(idx as int) == s.take(idx as int));
                            assert(s.remove(idx as int).skip(idx as int) == s.skip(idx + 1));
                            assert(leaves_with_halves(self.entries@, idx as int, e1, e2) =~= p + l2 + sfx);
                            assert forall|i: int| 0 <= i < self.entries@.len() implies (#[trigger] self.entries@[i]).child_ok(self.height) by {
                                if i < idx {
                                    assert(self.entries@[i] == s[i]);
                                } else {
                                    assert(self.entries@[i] == s[i + 1]);
                                }
                            }
                        }
                        proof {
                            if fanout >= 2 && o.within(fanout) {
                                lemma_within_node(o, fanout);
                                lemma_within_entry(s[idx as int], fanout);
                                assert forall|i: int| 0 <= i < self.entries@.len() implies #[trigger] self.entries@[i].within(
                                    fanout,
                                ) by {
                                    if i < idx {
                                        assert(self.entries@[i] == s[i]);
                                    } else {
                                        assert(self.entries@[i] == s[i + 1]);
                                    }
                                }
                            }
                        }
                        proof {
                            if o.partial_keys_ok() {
                                assert forall|i: int| 0 <= i < self.entries@.len() implies (#[trigger] self.entries@[i]).spec_partial_key()
                                    == partial_key_spec(self.mask@, self.byte_offset, self.entries@[i].spec_key())
                                    && self.entries@[i].keys_ok() by {
                                    if i < idx {
                                        assert(self.entries@[i] == s[i]);
                                    } else {
                                        assert(self.entries@[i] == s[i + 1]);
                                    }
                                }
                            }
                        }
                        let r = self.integrate_child_split(idx, e1, e2, fanout, next_id);
                        proof {
                            if r is Done {
                                lemma_prefix_first(o, idx as int);
                                assert(self.leaves() =~= p + (l2 + sfx));
                                assert(self.leaves()[0] == p[0]);
                            }
                        }
                        r
                    },
                    InsertResult::Done => {
                        let ghost child = Entry::Child(rep, node, pk);
                        self.entries.insert(idx, Entry::Child(rep, node, pk));
                        proof {
                            lemma_leaves_insert_at(s.remove(idx as int), idx as int, child);
                            assert(self.leaves() =~= p + l2 + sfx);
                            assert forall|i: int| 0 <= i < self.entries@.len() implies (#[trigger] self.entries@[i]).child_ok(self.height) by {
                                if i != idx {
                                    assert(self.entries@[i] == s[i]);
                                }
                            }
                            lemma_wf_intro(*self);
                            if fanout >= 2 && o.within(fanout) {
                                lemma_within_node(o, fanout);
                                lemma_within_entry(s[idx as int], fanout);
                                lemma_within_entry(child, fanout);
                                assert forall|i: int| 0 <= i < self.entries@.len() implies #[trigger] self.entries@[i].within(
                                    fanout,
                                ) by {
                                    if i != idx {
                                        assert(self.entries@[i] == s[i]);
                                    }
                                }
                                lemma_within_node(*self, fanout);
                            }
                            if o.partial_keys_ok() {
                                assert forall|i: int| 0 <= i < self.entries@.len() implies (#[trigger] self.entries@[i]).spec_partial_key()
                                    == partial_key_spec(self.mask@, self.byte_offset, self.entries@[i].spec_key())
                                    && self.entries@[i].keys_ok() by {
                                    if i != idx {
                                        assert(self.entries@[i] == s[i]);
                                    }
                                }
                            }
                            if idx == 0 {
                                assert(s.take(0) =~= Seq::<Entry<K, V>>::empty());
                                assert(p =~= Seq::<(K, V)>::empty());
                                assert(self.leaves()[0] == l2[0]);
                                assert(o.leaves()[0] == l[0]);
                            } else {
                                lemma_prefix_first(o, idx as int);
                                assert(self.leaves()[0] == p[0]);
                            }
                        }
                        InsertResult::Done
                    },
                }
            },
            Entry::Leaf(k, v, pk) => {
                proof {
                    assert(false);
                }
                self.entries.insert(idx, Entry::Leaf(k, v, pk));
                InsertResult::Done
            },
        }
    }
}

/// The lower of two optional bit positions; a position beats none.
pub open spec fn lower_bit(a: Option<usize>, b: Option<usize>) -> Option<usize> {
    match (a, b) {
        (None, _) => b,
        (Some(x), None) => Some(x),
        (Some(x), Some(y)) => if y < x {
            Some(y)
        } else {
            Some(x)
        },
    }
}

/// The lowest bit at which `key` differs from a representative key of `s`,
/// if it differs from any.
pub open spec fn lowest_diff_bit<K: HotKey, V>(s: Seq<Entry<K, V>>, key: K) -> Option<usize>
    decreases s.len(),
{
    if s.len() == 0 {
        None
    } else {
        lower_bit(lowest_diff_bit(s.drop_last(), key), key.spec_first_differing_bit(&s.last().spec_key()))
    }
}

impl<K: HotKey, V> HOTNode<K, V> {
    /// Adds to the mask the first bit at which `key` differs from the node's
    /// representative keys (the lowest such bit), recomputing the partial
    /// keys when the mask grows.
    fn note_first_diff_bit(&mut self, key: &K)
        requires
            old(self).wf(),
            old(self).entries@.len() > 0,
            key.key_bytes().len() <= max_key_bytes(),
        ensures
            final(self).wf(),
            final(self).id == old(self).id,
            final(self).height == old(self).height,
            crate::trie::node::same_contents(old(self).entries@, final(self).entries@),
            final(self).leaves() == old(self).leaves(),
            final(self).byte_offset == old(self).byte_offset,
            match lowest_diff_bit(old(self).entries@, *key) {
                Some(b) => {
                    &&& final(self).mask@.to_set() == old(self).mask@.to_set().insert(b)
                    &&& if old(self).mask@.contains(b) {
                        final(self).mask@ == old(self).mask@ && final(self).entries@ == old(self).entries@
                    } else {
                        crate::trie::node::refreshed(
                            old(self).entries@,
                            final(self).entries@,
                            final(self).mask@,
                            final(self).byte_offset,
                        )
                    }
                },
                None => final(self).mask@ == old(self).mask@ && final(self).entries@ == old(self).entries@,
            },
            old(self).partial_keys_ok() ==> final(self).partial_keys_ok(),
    {
        let ghost o = *old(self);
        proof {
            crate::trie::lemmas::lemma_wf_reps_fit(o);
        }
        let mut min_diff_bit: Option<usize> = None;
        let mut i: usize = 0;
        while i < self.entries.len()
            invariant
                *self == o,
                o.wf(),
                key.key_bytes().len() <= max_key_bytes(),
                i <= o.entries@.len(),
                forall|j: int|
                    0 <= j < o.entries@.len() ==> (#[trigger] o.entries@[j]).spec_key().key_bytes().len()
                        <= max_key_bytes(),
                min_diff_bit == lowest_diff_bit(o.entries@.take(i as int), *key),
            decreases o.entries@.len() - i,
        {
            proof {
                assert(o.entries@.take(i + 1).drop_last() =~= o.entries@.take(i as int));
                assert(o.entries@.take(i + 1).last() == o.entries@[i as int]);
            }
            if let Some(diff) = key.first_differing_bit(self.entries[i].key()) {
                if min_diff_bit.is_none() || diff < min_diff_bit.unwrap() {
                    min_diff_bit = Some(diff);
                }
            }
            i = i + 1;
        }
        proof {
            assert(o.entries@.take(i as int) =~= o.entries@);
        }
        if let Some(diff_bit) = min_diff_bit {
            if sorted_insert(&mut self.mask, diff_bit) {
                self.refresh_partial_keys();
                proof {
                    crate::trie::lemmas::lemma_refreshed_same(o.entries@, self.entries@, self.mask@, self.byte_offset);
                    if o.partial_keys_ok() {
                        crate::trie::lemmas::lemma_refreshed_keys(o.entries@, self.entries@, self.mask@, self.byte_offset);
                    }
                }
            }
        }
        proof {
            if self.entries@ == o.entries@ {
                assert forall|j: int| 0 <= j < o.entries@.len() implies (#[trigger] o.entries@[j]).same_content(
                    self.entries@[j],
                ) by {
                    match o.entries@[j] {
                        Entry::Leaf(k, v, pk) => {},
                        Entry::Child(k, n, pk) => {},
                    }
                }
            }
            crate::trie::lemmas::lemma_wf_same_contents(o, *self);
        }
    }

    /// Gives the leaf at `idx`, whose key has the bytes of `key`, the value.
    fn store_at_leaf(&mut self, idx: usize, key: &K, value: V) -> (r: InsertResult<K, V>)
        requires
            old(self).wf(),
            idx < old(self).entries@.len(),
            old(self).entries@[idx as int] is Leaf,
            old(self).entries@[idx as int].spec_key().key_bytes() == key.key_bytes(),
        ensures
            insert_outcome(*old(self), *final(self), r),
            inserted(old(self).leaves(), *key, value, r.result_leaves(*final(self))),
            r is Done,
            final(self).entries@.len() == old(self).entries@.len(),
            forall|f: usize| #[trigger] old(self).within(f) ==> final(self).within(f),
            old(self).partial_keys_ok() ==> final(self).partial_keys_ok(),
    {
        let ghost m = *old(self);
        let ghost s = self.entries@;
        let ghost kb = key.key_bytes();
        let ghost p = entries_leaves(s.take(idx as int));
        let ghost sfx = entries_leaves(s.skip(idx + 1));
        let ghost l = s[idx as int].leaves();
        proof {
            lemma_wf_entry(m, idx as int);
        }
        self.set_leaf_value(idx, value);
        proof {
            let k0 = s[idx as int]->Leaf_0;
            let l2 = seq![(k0, value)];
            assert(l =~= seq![(k0, s[idx as int]->Leaf_1)]);
            assert(l[0].0.key_bytes() == kb);
            assert(crate::trie::insert::has_key(l, kb));
            assert(l2 =~= l.update(0, (l[0].0, value)));
            lemma_sorted_concat(p, l + sfx);
            lemma_sorted_concat(l, sfx);
            assert(m.leaves() =~= p + (l + sfx));
            assert(m.leaves() =~= p + l + sfx);
            assert forall|i: int| 0 <= i < p.len() implies bytes_lt((#[trigger] p[i]).0.key_bytes(), kb) by {
                assert(bytes_lt(p[i].0.key_bytes(), l[0].0.key_bytes()));
            }
            assert forall|i: int| 0 <= i < sfx.len() implies bytes_lt(kb, (#[trigger] sfx[i]).0.key_bytes()) by {
                assert(bytes_lt(l[0].0.key_bytes(), sfx[i].0.key_bytes()));
            }
            lemma_inserted_frame(p, l, l2, sfx, *key, value);
            let ch = Entry::Leaf(k0, value, s[idx as int]->Leaf_2);
            lemma_leaves_remove_at(s, idx as int);
            assert(self.entries@ =~= s.remove(idx as int).insert(idx as int, ch));
            lemma_leaves_insert_at(s.remove(idx as int), idx as int, ch);
            lemma_entries_leaves_single(ch);
            assert(self.leaves() =~= p + l2 + sfx);
            assert forall|i: int| 0 <= i < self.entries@.len() implies (#[trigger] self.entries@[i]).child_ok(self.height) by {
                if i != idx {
                    assert(self.entries@[i] == s[i]);
                }
            }
            lemma_wf_intro(*self);
            if idx == 0 {
                assert(s.take(0) =~= Seq::<Entry<K, V>>::empty());
                assert(p =~= Seq::<(K, V)>::empty());
            } else {
                lemma_prefix_first(m, idx as int);
            }
            assert(self.leaves()[0].0 == m.leaves()[0].0);
            assert(self.partial_keys_ok() == m.partial_keys_ok()) by {
                assert forall|i: int| 0 <= i < self.entries@.len() implies self.entries@[i].spec_partial_key()
                    == #[trigger] m.entries@[i].spec_partial_key() && self.entries@[i].spec_key() == m.entries@[i].spec_key()
                    && self.entries@[i].keys_ok() == m.entries@[i].keys_ok() by {
                    if i != idx {
                        assert(self.entries@[i] == s[i]);
                    }
                }
                if m.partial_keys_ok() {
                    assert forall|i: int| 0 <= i < self.entries@.len() implies (#[trigger] self.entries@[i]).spec_partial_key()
                        == partial_key_spec(self.mask@, self.byte_offset, self.entries@[i].spec_key()) && self.entries@[i].keys_ok() by {
                        assert(m.entries@[i].spec_partial_key() == self.entries@[i].spec_partial_key());
                    }
                }
            }
            assert forall|f: usize| #[trigger] m.within(f) implies self.within(f) by {
                lemma_within_node(m, f);
                lemma_within_node(*self, f);
                lemma_within_entry(self.entries@[idx as int], f);
                assert forall|i: int| 0 <= i < self.entries@.len() implies #[trigger] self.entries@[i].within(f) by {
                    if i != idx {
                        assert(self.entries@[i] == s[i]);
                    }
                }
            }
        }
        InsertResult::Done
    }

    /// Puts a key below all of the node's keys first, splitting the node when
    /// it is already full.
    fn insert_first(&mut self, key: K, value: V, fanout: usize, next_id: &mut u64) -> (r: InsertResult<K, V>)
        requires
            old(self).wf(),
            old(self).entries@.len() > 0,
            key.key_bytes().len() <= max_key_bytes(),
            forall|i: int|
                0 <= i < old(self).leaves().len() ==> bytes_lt(
                    key.key_bytes(),
                    (#[trigger] old(self).leaves()[i]).0.key_bytes(),
                ),
        ensures
            insert_outcome(*old(self), *final(self), r),
            inserted(old(self).leaves(), key, value, r.result_leaves(*final(self))),
            r is Split ==> is_full(*old(self), fanout),
            old(self).within(fanout) ==> r.result_within(*final(self), fanout),
            !has_key(old(self).leaves(), key.key_bytes()),
            old(self).partial_keys_ok() ==> r.result_keys_ok(*final(self)),
            old(self).entries@.len() >= fanout ==> r is Split,
            old(self).entries@.len() < fanout ==> r is NewMin && final(self).entries@.len() == old(self).entries@.len() + 1,
            all_leaves(old(self).entries@) && !(r is Split) ==> all_leaves(final(self).entries@),
    {
        let ghost m = *old(self);
        let ghost s = self.entries@;
        let ghost kb = key.key_bytes();
        let ghost old_leaves = m.leaves();
        proof {
            lemma_bytes_lt_irreflexive(kb);
            assert(!crate::trie::insert::has_key(old_leaves, kb)) by {
                if crate::trie::insert::has_key(old_leaves, kb) {
                    let j = crate::trie::insert::key_index(old_leaves, kb);
                    assert(bytes_lt(kb, old_leaves[j].0.key_bytes()));
                }
            }
        }
        let pk = self.extract_partial_key(&key);
        let ghost e = Entry::Leaf(key, value, pk);
        let room = self.entries.len() < fanout;
        let first_key = key.clone_key();
        self.entries.insert(0, Entry::Leaf(key, value, pk));
        proof {
            lemma_leaves_insert_at(s, 0, e);
            lemma_entries_leaves_single(e);
            assert(s.take(0) =~= Seq::<Entry<K, V>>::empty());
            assert(s.skip(0) =~= s);
            assert(self.leaves() =~= seq![(key, value)] + old_leaves);
            assert(self.leaves() =~= old_leaves.insert(0, (key, value)));
            lemma_sorted_concat(seq![(key, value)], old_leaves);
            assert forall|i: int| 0 <= i < self.entries@.len() implies (#[trigger] self.entries@[i]).child_ok(self.height) by {
                if i > 0 {
                    assert(self.entries@[i] == s[i - 1]);
                }
            }
            lemma_wf_intro(*self);
            crate::trie::lemmas::lemma_wf_reps_fit(*self);
        }
        let ghost before = *self;
        self.update_mask_from_entries();
        proof {
            crate::trie::lemmas::lemma_wf_same_contents(before, *self);
            if m.within(fanout) {
                lemma_within_node(m, fanout);
                lemma_within_entry(e, fanout);
                assert(entries_within(before.entries@, fanout)) by {
                    assert forall|i: int| 0 <= i < before.entries@.len() implies #[trigger] before.entries@[i].within(
                        fanout,
                    ) by {
                        if i > 0 {
                            assert(before.entries@[i] == s[i - 1]);
                        }
                    }
                }
                lemma_same_contents_within(before.entries@, self.entries@, fanout);
                lemma_within_node(*self, fanout);
            }
            if m.partial_keys_ok() {
                assert forall|i: int| 0 <= i < before.entries@.len() implies (#[trigger] before.entries@[i]).keys_ok() by {
                    if i > 0 {
                        assert(before.entries@[i] == s[i - 1]);
                    }
                }
            }
        }
        let ghost mid = *self;
        if room {
            InsertResult::NewMin(first_key)
        } else {
            let r = self.split(next_id);
            proof {
                if m.within(fanout) {
                    lemma_split_within(mid.entries@, r->Split_0, r->Split_1, fanout);
                }
            }
            r
        }
    }

    /// Inserts a key-value pair into the HOT subtree, following the height
    /// optimization rules: insertion with space or parent pull-up of a split
    /// child, pushdown of a leaf sitting above the lowest level, and
    /// intermediate nodes filling height gaps when a child splits.
    /// Before placing the key, the first bit at which it differs from the
    /// node's keys joins the node's mask.
    pub fn insert(&mut self, key: K, value: V, fanout: usize, next_id: &mut u64) -> (r: InsertResult<K, V>)
        requires
            old(self).wf(),
            key.key_bytes().len() <= max_key_bytes(),
        ensures
            insert_outcome(*old(self), *final(self), r),
            inserted(old(self).leaves(), key, value, r.result_leaves(*final(self))),
            // a node splits only when it was full
            r is Split ==> is_full(*old(self), fanout),
            // with a fanout of at least two, no node ends up with more entries than it
            fanout >= 2 && old(self).within(fanout) ==> r.result_within(*final(self), fanout),
            // a key already present only takes the new value: the node keeps its
            // entries' number and reports no change of first key
            has_key(old(self).leaves(), key.key_bytes()) ==> r is Done && final(self).entries@.len()
                == old(self).entries@.len(),
            // partial keys stay consistent with the masks
            old(self).partial_keys_ok() ==> r.result_keys_ok(*final(self)),
            // a new key at the lowest level becomes one more leaf; the node splits
            // exactly when it was full
            old(self).height == 1 && all_leaves(old(self).entries@) && old(self).entries@.len() > 0 && !has_key(
                old(self).leaves(),
                key.key_bytes(),
            ) ==> (old(self).entries@.len() >= fanout ==> r is Split) && (old(self).entries@.len() < fanout
                && old(self).entries@.len() < 32 ==> !(r is Split) && final(self).entries@.len()
                == old(self).entries@.len() + 1) && (!(r is Split) ==> all_leaves(final(self).entries@)),
            // above the lowest level: a leaf the key descends to is pushed down and
            // the entry count stays; a lowest child holding only leaves takes the
            // key while it has room, and when full splits, its halves pulled up
            // one level above them or put under an intermediate node
            ({
                let t = crate::trie::lookup::key_slot(old(self).entries@, key.key_bytes());
                &&& 0 <= t < old(self).entries@.len() && old(self).entries@[t] is Leaf && old(self).entries@[t]->Leaf_0.key_bytes()
                    != key.key_bytes() && old(self).height > 1 ==> !(r is Split) && final(self).entries@.len() == old(
                    self,
                ).entries@.len()
                &&& 0 <= t < old(self).entries@.len() && old(self).entries@[t] is Child && ({
                    let c = old(self).entries@[t]->Child_1;
                    c.height == 1 && all_leaves(c.entries@) && c.entries@.len() > 0 && !has_key(c.leaves(), key.key_bytes())
                }) ==> {
                    let c = old(self).entries@[t]->Child_1;
                    &&& c.entries@.len() < fanout && c.entries@.len() < 32 ==> !(r is Split) && final(self).entries@.len()
                        == old(self).entries@.len()
                    &&& c.entries@.len() >= fanout && old(self).height == 2 && old(self).entries@.len() + 1 <= fanout
                        && old(self).entries@.len() < 33 ==> !(r is Split) && final(self).entries@.len() == old(
                        self,
                    ).entries@.len() + 1
                    &&& c.entries@.len() >= fanout && old(self).height > 2 ==> !(r is Split) && final(self).entries@.len()
                        == old(self).entries@.len()
                }
            }),
            // an empty node takes the key as its one leaf
            old(self).entries@.len() == 0 ==> {
                &&& r == InsertResult::<K, V>::NewMin(key)
                &&& final(self).entries@ == seq![Entry::Leaf(key, value, 0u32)]
                &&& final(self).mask == old(self).mask
                &&& final(self).byte_offset == old(self).byte_offset
            },
        decreases old(self).height, 1int,
    {
        let ghost o = *old(self);
        let ghost kb = key.key_bytes();
        if self.entries.len() == 0 {
            let pk: u32 = 0;
            let ghost e = Entry::Leaf(key, value, pk);
            self.entries.push(Entry::Leaf(key.clone_key(), value, pk));
            proof {
                assert(self.entries@ =~= seq![e]);
                lemma_entries_leaves_single(e);
                assert(o.leaves() =~= Seq::<(K, V)>::empty());
                assert(self.leaves() =~= o.leaves().insert(0, (key, value)));
                assert(self.entries@[0].child_ok(self.height));
                lemma_within_entry(e, fanout);
                lemma_within_node(*self, fanout);
            }
            return InsertResult::NewMin(key);
        }
        self.note_first_diff_bit(&key);
        let ghost m = *self;
        let ghost s = self.entries@;
        proof {
            assert forall|i: int| 0 <= i < o.entries@.len() implies (#[trigger] o.entries@[i]).spec_key() == s[i].spec_key()
                && (o.entries@[i] is Leaf ==> s[i] is Leaf && s[i]->Leaf_0 == o.entries@[i]->Leaf_0)
                && (o.entries@[i] is Child ==> s[i] is Child && s[i]->Child_1 == o.entries@[i]->Child_1) by {
                assert(o.entries@[i].same_content(s[i]));
            }
            crate::trie::lookup::lemma_key_slot_same_keys(o.entries@, s, kb);
            lemma_within_node(o, fanout);
            lemma_within_node(m, fanout);
            lemma_same_contents_within(o.entries@, s, fanout);
            if all_leaves(o.entries@) {
                lemma_same_contents_leaves_kind(o.entries@, s);
            }
        }
        match self.find_entry(&key) {
            Ok(idx) => {
                proof {
                    lemma_bytes_lt_irreflexive(kb);
                    assert forall|j: int| idx < j < s.len() implies bytes_lt(kb, (#[trigger] s[j]).spec_key().key_bytes()) by {
                        lemma_wf_entries_ordered(m, idx as int, j);
                    }
                    crate::trie::lookup::lemma_key_slot(s, kb, idx as int);
                    lemma_wf_entry(m, idx as int);
                    if m.height == 1 && all_leaves(s) {
                        assert(s[idx as int] is Leaf);
                        lemma_leaf_entry_present(m, idx as int);
                    }
                }
                if self.entries[idx].is_leaf() {
                    self.store_at_leaf(idx, &key, value)
                } else {
                    proof {
                        lemma_entries_leaves_at(s, idx as int);
                        let l = s[idx as int].leaves();
                        let sfx = entries_leaves(s.skip(idx + 1));
                        assert forall|i: int| 0 <= i < sfx.len() implies bytes_lt(kb, (#[trigger] sfx[i]).0.key_bytes()) by {
                            assert(bytes_lt(l[0].0.key_bytes(), sfx[i].0.key_bytes()));
                        }
                    }
                    self.insert_into_child(idx, key, value, fanout, next_id)
                }
            },
            Err(idx) => {
                proof {
                    if idx > 0 {
                        lemma_bytes_lt_asymmetric(s[idx - 1].spec_key().key_bytes(), kb);
                    }
                    crate::trie::lookup::lemma_key_slot(s, kb, idx - 1);
                    if idx < s.len() {
                        lemma_suffix_first(m, idx as int);
                        let sf = entries_leaves(s.skip(idx as int));
                        lemma_below_first(kb, sf);
                    }
                }
                if idx > 0 {
                    let prev_idx = idx - 1;
                    proof {
                        lemma_wf_entry(m, prev_idx as int);
                        if m.height == 1 && all_leaves(s) {
                            assert(s[prev_idx as int] is Leaf);
                            lemma_leaf_entry_present(m, prev_idx as int);
                        }
                        assert(s.skip(prev_idx + 1) == s.skip(idx as int));
                        if idx == s.len() {
                            assert(s.skip(idx as int) =~= Seq::<Entry<K, V>>::empty());
                            assert(entries_leaves(s.skip(idx as int)) =~= Seq::<(K, V)>::empty());
                        }
                    }
                    if self.entries[prev_idx].is_leaf() {
                        if self.entries[prev_idx].key().compare_key(&key) == KeyOrder::Equal {
                            proof {
                                lemma_bytes_lt_irreflexive(kb);
                            }
                            self.store_at_leaf(prev_idx, &key, value)
                        } else {
                            self.handle_insert_at(prev_idx, key, value, fanout, next_id)
                        }
                    } else {
                        self.insert_into_child(prev_idx, key, value, fanout, next_id)
                    }
                } else {
                    proof {
                        assert(s.skip(0) =~= s);
                    }
                    self.insert_first(key, value, fanout, next_id)
                }
            },
        }
    }
}

} // verus!
