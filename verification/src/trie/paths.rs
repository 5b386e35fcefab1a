use vstd::prelude::*;
use crate::trie::entry::Entry;
use crate::trie::key::{HotKey, bytes_lt, lemma_bytes_lt_total, lemma_bytes_lt_transitive, lemma_bytes_lt_asymmetric};
use crate::trie::node::{HOTNode, entries_leaves, spec_leaf_id};
use crate::trie::lookup::{key_slot, search_trace_in};
use crate::trie::remove::remove_id_in;
use crate::trie::lemmas::lemma_entries_leaves_at;
use crate::trie::steps::{ScanStep, entries_steps, advance_step};

verus! {

impl<K: HotKey, V> HOTNode<K, V> {
    /// `p` runs down the trie from this node: it starts with this node's id,
    /// and each next id is that of a child node of the node before it.
    pub open spec fn node_path(self, p: Seq<u64>) -> bool
        decreases self,
    {
        &&& p.len() >= 1
        &&& p[0] == self.id
        &&& (p.len() == 1 || exists|i: int|
            0 <= i < self.entries@.len() && (#[trigger] self.entries@[i]).child_path(p.drop_first()))
    }

    /// `p` runs down the trie from this node to a leaf whose key has the
    /// bytes `kb`: one node id per level, then the id of the leaf.
    pub open spec fn leaf_path(self, p: Seq<u64>, kb: Seq<u8>) -> bool
        decreases self,
    {
        &&& p.len() >= 1
        &&& p[0] == self.id
        &&& exists|i: int|
            0 <= i < self.entries@.len() && (#[trigger] self.entries@[i]).leaf_path_at(self.id, i, p.drop_first(), kb)
    }

    /// `p` runs down the trie from this node, as `node_path` says, to a node
    /// none of whose child nodes spans the key bytes `kb`.
    pub open spec fn miss_path(self, p: Seq<u64>, kb: Seq<u8>) -> bool
        decreases self,
    {
        &&& p.len() >= 1
        &&& p[0] == self.id
        &&& if p.len() == 1 {
            forall|i: int| 0 <= i < self.entries@.len() ==> !(#[trigger] self.entries@[i]).spans(kb)
        } else {
            exists|i: int| 0 <= i < self.entries@.len() && (#[trigger] self.entries@[i]).miss_path_at(p.drop_first(), kb)
        }
    }

    /// `m` is a node below this one (not the node itself).
    pub open spec fn node_below(self, m: HOTNode<K, V>) -> bool
        decreases self,
    {
        exists|i: int| 0 <= i < self.entries@.len() && (#[trigger] self.entries@[i]).node_at_or_below(m)
    }

    /// Some node or leaf below this node (not the node itself) has the id `id`.
    pub open spec fn has_id(self, id: u64) -> bool
        decreases self,
    {
        exists|i: int| 0 <= i < self.entries@.len() && (#[trigger] self.entries@[i]).holds_id(self.id, i, id)
    }

    /// Some node or leaf below this node has the id `id`, and `l` are the
    /// leaves at and below it.
    pub open spec fn id_leaves(self, id: u64, l: Seq<(K, V)>) -> bool
        decreases self,
    {
        exists|i: int| 0 <= i < self.entries@.len() && (#[trigger] self.entries@[i]).id_leaves_at(self.id, i, id, l)
    }

    /// Somewhere in the subtree, entry `j` of the node `parent` is a leaf
    /// with the key `k`.
    pub open spec fn has_leaf_at(self, parent: u64, j: int, k: K) -> bool
        decreases self,
    {
        exists|i: int| 0 <= i < self.entries@.len() && (#[trigger] self.entries@[i]).leaf_at(self.id, i, parent, j, k)
    }

    /// Somewhere in the subtree, entry `j` of the node `parent` is a child
    /// node with the id `child`.
    pub open spec fn has_child_at(self, parent: u64, j: int, child: u64) -> bool
        decreases self,
    {
        exists|i: int| 0 <= i < self.entries@.len() && (#[trigger] self.entries@[i]).child_at(self.id, i, parent, j, child)
    }
}

impl<K: HotKey, V> Entry<K, V> {
    /// This is a child whose node is `m` or has `m` below it.
    pub open spec fn node_at_or_below(self, m: HOTNode<K, V>) -> bool
        decreases self,
    {
        match self {
            Entry::Leaf(_, _, _) => false,
            Entry::Child(_, c, _) => *c == m || c.node_below(m),
        }
    }

    /// This is a child whose node starts the path `p`.
    pub open spec fn child_path(self, p: Seq<u64>) -> bool
        decreases self,
    {
        match self {
            Entry::Leaf(_, _, _) => false,
            Entry::Child(_, c, _) => c.node_path(p),
        }
    }

    /// This is a child whose node's keys span `kb`: its first key is not
    /// above `kb`, and its last key is not below.
    pub open spec fn spans(self, kb: Seq<u8>) -> bool {
        match self {
            Entry::Leaf(_, _, _) => false,
            Entry::Child(_, c, _) => c.leaves().len() > 0 && !bytes_lt(kb, c.leaves()[0].0.key_bytes()) && !bytes_lt(
                c.leaves().last().0.key_bytes(),
                kb,
            ),
        }
    }

    /// This is a child from whose node `p` runs down, as `miss_path` says.
    pub open spec fn miss_path_at(self, p: Seq<u64>, kb: Seq<u8>) -> bool
        decreases self,
    {
        match self {
            Entry::Leaf(_, _, _) => false,
            Entry::Child(_, c, _) => c.miss_path(p, kb),
        }
    }

    /// The entry at `idx` of node `node_id` leads along `p` to a leaf whose
    /// key has the bytes `kb`: it is that leaf, and `p` is its id alone, or
    /// it is a child from whose node `p` runs down to the leaf.
    pub open spec fn leaf_path_at(self, node_id: u64, idx: int, p: Seq<u64>, kb: Seq<u8>) -> bool
        decreases self,
    {
        match self {
            Entry::Leaf(k, _, _) => p == seq![spec_leaf_id(node_id, idx as usize)] && k.key_bytes() == kb,
            Entry::Child(_, c, _) => c.leaf_path(p, kb),
        }
    }

    /// The entry at `idx` of node `node_id`, or a node or leaf below it, has the id `id`.
    pub open spec fn holds_id(self, node_id: u64, idx: int, id: u64) -> bool
        decreases self,
    {
        match self {
            Entry::Leaf(_, _, _) => spec_leaf_id(node_id, idx as usize) == id,
            Entry::Child(_, c, _) => c.id == id || c.has_id(id),
        }
    }

    /// The entry at `idx` of node `node_id`, or a node or leaf below it, has
    /// the id `id`, and `l` are the leaves at and below that one.
    pub open spec fn id_leaves_at(self, node_id: u64, idx: int, id: u64, l: Seq<(K, V)>) -> bool
        decreases self,
    {
        match self {
            Entry::Leaf(_, _, _) => spec_leaf_id(node_id, idx as usize) == id && l == self.leaves(),
            Entry::Child(_, c, _) => (c.id == id && l == c.leaves()) || c.id_leaves(id, l),
        }
    }

    /// The entry at `idx` of node `node_id` is entry `j` of the node
    /// `parent` and a leaf with the key `k`, or such a leaf lies below it.
    pub open spec fn leaf_at(self, node_id: u64, idx: int, parent: u64, j: int, k: K) -> bool
        decreases self,
    {
        match self {
            Entry::Leaf(k2, _, _) => node_id == parent && idx == j && k2 == k,
            Entry::Child(_, c, _) => c.has_leaf_at(parent, j, k),
        }
    }

    /// The entry at `idx` of node `node_id` is entry `j` of the node
    /// `parent` and a child node with the id `child`, or such a child lies
    /// below it.
    pub open spec fn child_at(self, node_id: u64, idx: int, parent: u64, j: int, child: u64) -> bool
        decreases self,
    {
        match self {
            Entry::Leaf(_, _, _) => false,
            Entry::Child(_, c, _) => (node_id == parent && idx == j && c.id == child) || c.has_child_at(parent, j, child),
        }
    }
}


/// The trace of a search across the entries of `n` from `idx` on: a leaf
/// reached lies at the end of a path from one of those entries, and the match
/// flag says whether that leaf's key is the one searched; when no leaf is
/// reached, the nodes visited below run down from one of those entries.
pub open spec fn search_in_reaches<K: HotKey, V>(n: HOTNode<K, V>, idx: int, pk: u32, key: K) -> bool {
    let r = search_trace_in(n.entries@.skip(idx), n.id, idx, pk, key);
    &&& r.4 is Some ==> exists|i: int, kb: Seq<u8>|
        idx <= i < n.entries@.len() && #[trigger] n.entries@[i].leaf_path_at(n.id, i, r.1.push(r.4->Some_0), kb)
            && r.5 == (kb == key.key_bytes())
    &&& r.4 is None ==> r.1.len() == 0 || exists|i: int|
        idx <= i < n.entries@.len() && (#[trigger] n.entries@[i]).child_path(r.1)
}

/// What `search_in_reaches` states holds of every search across entries.
pub proof fn lemma_search_in_path<K: HotKey, V>(n: HOTNode<K, V>, idx: int, pk: u32, key: K)
    requires
        0 <= idx <= n.entries@.len(),
    ensures
        search_in_reaches(n, idx, pk, key),
    decreases n, 0int, n.entries@.len() - idx,
{
    let s = n.entries@;
    if idx < s.len() {
        assert(s.skip(idx)[0] == s[idx]);
        assert(s.skip(idx).drop_first() =~= s.skip(idx + 1));
        let r = search_trace_in(s.skip(idx), n.id, idx, pk, key);
        if s[idx].spec_partial_key() == pk {
            match s[idx] {
                Entry::Leaf(k, _, _) => {
                    let lid = spec_leaf_id(n.id, idx as usize);
                    assert(r.4 == Some(lid) && r.1 == Seq::<u64>::empty() && r.5 == (k.key_bytes() == key.key_bytes()));
                    assert(r.1.push(lid) =~= seq![lid]);
                    assert(s[idx].leaf_path_at(n.id, idx, r.1.push(lid), k.key_bytes()));
                    assert(exists|i: int, kb: Seq<u8>| idx <= i < s.len() && #[trigger] s[i].leaf_path_at(n.id, i, r.1.push(lid), kb)
                        && r.5 == (kb == key.key_bytes()));
                    assert(r.4->Some_0 == lid);
                    assert(n.entries@[idx].leaf_path_at(n.id, idx, r.1.push(r.4->Some_0), k.key_bytes()));
                    assert(r == search_trace_in(n.entries@.skip(idx), n.id, idx, pk, key));
                    assert(search_in_reaches(n, idx, pk, key));
                },
                Entry::Child(_, c, _) => {
                    lemma_search_path(*c, key);
                    let t = c.search_trace(key);
                    assert(r.1 == t.0 && r.4 == t.3 && r.5 == t.4);
                    if let Some(lid) = t.3 {
                        let kb = choose|kb: Seq<u8>| c.leaf_path(t.0.push(lid), kb) && t.4 == (kb == key.key_bytes());
                        assert(s[idx].leaf_path_at(n.id, idx, r.1.push(lid), kb));
                        assert(exists|i: int, kb: Seq<u8>| idx <= i < s.len() && #[trigger] s[i].leaf_path_at(n.id, i, r.1.push(lid), kb)
                            && r.5 == (kb == key.key_bytes()));
                    } else {
                        assert(s[idx].child_path(r.1));
                    }
                    assert(search_in_reaches(n, idx, pk, key));
                },
            }
        } else {
            assert(r == search_trace_in(s.skip(idx + 1), n.id, idx + 1, pk, key));
            lemma_search_in_path(n, idx + 1, pk, key);
            assert(search_in_reaches(n, idx, pk, key));
        }
    } else {
        assert(s.skip(idx) =~= Seq::<Entry<K, V>>::empty());
        assert(search_in_reaches(n, idx, pk, key));
    }
}

/// A search runs down the trie: the nodes it visits start at this node and
/// each is a child node of the one before; when it reaches a leaf, the leaf's
/// id ends a path from this node through those nodes, and the search reports
/// a match exactly when that leaf's key is the key searched.
pub proof fn lemma_search_path<K: HotKey, V>(n: HOTNode<K, V>, key: K)
    ensures
        ({
            let t = n.search_trace(key);
            &&& t.3 matches Some(lid) ==> exists|kb: Seq<u8>|
                #[trigger] n.leaf_path(t.0.push(lid), kb) && t.4 == (kb == key.key_bytes())
            &&& t.3 is None ==> n.node_path(t.0)
        }),
    decreases n, 1int, 0int,
{
    let s = n.entries@;
    if s.len() > 0 {
        let pk = n.spec_extract(key);
        assert(s.skip(0) =~= s);
        lemma_search_in_path(n, 0, pk, key);
        let r = search_trace_in(s, n.id, 0, pk, key);
        let t = n.search_trace(key);
        if let Some(lid) = t.3 {
            let (i, kb) = choose|i: int, kb: Seq<u8>|
                0 <= i < s.len() && #[trigger] s[i].leaf_path_at(n.id, i, r.1.push(lid), kb) && r.5 == (kb
                    == key.key_bytes());
            assert(t.0.push(lid).drop_first() =~= r.1.push(lid));
            assert(n.leaf_path(t.0.push(lid), kb));
        } else {
            assert(t.0.drop_first() =~= r.1);
        }
    }
}

/// A search that reaches a leaf reports a match exactly when the leaf's key
/// is the key searched: the leaf reached ends a path down from the root
/// through the nodes visited, one id per level, and the match flag is the
/// equality of that leaf's key with the key. A search that reaches no leaf
/// visits a path of nodes down from the root.
pub proof fn law_search_reaches_leaf<K: HotKey, V>(n: HOTNode<K, V>, key: K)
    ensures
        n.search_trace(key).3 matches Some(lid) ==> exists|kb: Seq<u8>|
            #[trigger] n.leaf_path(n.search_trace(key).0.push(lid), kb) && (n.search_trace(key).4 <==> kb
                == key.key_bytes()),
        n.search_trace(key).3 is None ==> n.node_path(n.search_trace(key).0),
{
    lemma_search_path(n, key);
}

/// The path a lookup records runs down the trie: it starts at this node and
/// each next id is a child node of the node before; when the key is found,
/// the path ends with the id of the leaf holding the key, one id per level
/// down to it; when it is missing, the path goes down to a node none of
/// whose child nodes spans the key.
pub proof fn law_lookup_path<K: HotKey, V>(n: HOTNode<K, V>, key: K)
    requires
        n.wf(),
    ensures
        n@.contains_key(key.key_bytes()) ==> n.leaf_path(n.lookup_path(key), key.key_bytes()),
        !n@.contains_key(key.key_bytes()) ==> n.miss_path(n.lookup_path(key), key.key_bytes()),
    decreases n,
{
    crate::trie::laws::lemma_slot_map(n, key);
    crate::trie::lookup::lemma_key_slot_range(n.entries@, key.key_bytes());
    let s = n.entries@;
    let kb = key.key_bytes();
    let t = key_slot(s, kb);
    let p = n.lookup_path(key);
    if 0 <= t < s.len() {
        match s[t] {
            Entry::Leaf(k, _, _) => {
                if k.key_bytes() == kb {
                    assert(p.drop_first() =~= seq![spec_leaf_id(n.id, t as usize)]);
                    assert(s[t].leaf_path_at(n.id, t, p.drop_first(), kb));
                } else {
                    lemma_no_child_spans(n, kb);
                }
            },
            Entry::Child(_, c, _) => {
                assert(s[t].child_ok(n.height));
                law_lookup_path(*c, key);
                assert(p.drop_first() =~= c.lookup_path(key));
                if n@.contains_key(kb) {
                    assert(s[t].leaf_path_at(n.id, t, p.drop_first(), kb));
                } else {
                    assert(s[t].miss_path_at(p.drop_first(), kb));
                }
            },
        }
    } else {
        lemma_no_child_spans(n, kb);
    }
}

/// When the entry the key bytes `kb` descend into is none, or a leaf with
/// other key bytes, no child node of the node spans `kb`.
proof fn lemma_no_child_spans<K: HotKey, V>(n: HOTNode<K, V>, kb: Seq<u8>)
    requires
        n.wf(),
        key_slot(n.entries@, kb) < 0 || (n.entries@[key_slot(n.entries@, kb)] matches Entry::Leaf(k, _, _)
            && k.key_bytes() != kb),
    ensures
        forall|i: int| 0 <= i < n.entries@.len() ==> !(#[trigger] n.entries@[i]).spans(kb),
{
    let s = n.entries@;
    let t = key_slot(s, kb);
    crate::trie::lookup::lemma_key_slot_range(s, kb);
    assert forall|i: int| 0 <= i < s.len() implies !(#[trigger] s[i]).spans(kb) by {
        if let Entry::Child(_, c, _) = s[i] {
            crate::trie::lemmas::lemma_wf_entry(n, i);
            assert(s[i].leaves() == c.leaves());
            if i > t {
                assert(bytes_lt(kb, c.leaves()[0].0.key_bytes()));
            } else {
                assert(i < t);
                crate::trie::lemmas::lemma_wf_entries_ordered(n, i, t);
                let lt = s[t].leaves();
                crate::trie::lemmas::lemma_wf_entry(n, t);
                let kt = lt[0].0.key_bytes();
                assert(kt == s[t].spec_key().key_bytes());
                let last = c.leaves().last().0.key_bytes();
                assert(c.leaves().last() == c.leaves()[c.leaves().len() - 1]);
                assert(bytes_lt(last, kt));
                lemma_bytes_lt_total(kt, kb);
                lemma_bytes_lt_transitive(last, kt, kb);
                lemma_bytes_lt_asymmetric(last, kb);
            }
        }
    }
}

/// A removal by id across the entries of `n` from `idx` on finds the id
/// exactly when one of those entries or a node or leaf below it has it, and
/// then removes a range of leaves that are those at and below that one.
pub open spec fn remove_in_finds<K: HotKey, V>(n: HOTNode<K, V>, idx: int, target: u64) -> bool {
    let s = n.entries@;
    let off = entries_leaves(s.take(idx)).len() as int;
    let r = remove_id_in(s.skip(idx), n.id, idx, target, off, s.len() as int);
    &&& (r.0 is NotFound) == !(exists|i: int| idx <= i < s.len() && #[trigger] s[i].holds_id(n.id, i, target))
    &&& !(r.0 is NotFound) ==> {
        &&& off <= r.1 <= r.2 <= n.leaves().len()
        &&& exists|i: int| idx <= i < s.len() && #[trigger] s[i].id_leaves_at(n.id, i, target, n.leaves().subrange(r.1, r.2))
    }
}

/// What `remove_in_finds` states holds of every removal across entries.
pub proof fn lemma_remove_in_finds<K: HotKey, V>(n: HOTNode<K, V>, idx: int, target: u64)
    requires
        0 <= idx <= n.entries@.len(),
    ensures
        remove_in_finds(n, idx, target),
    decreases n, 0int, n.entries@.len() - idx,
{
    let s = n.entries@;
    let len = s.len() as int;
    let off = entries_leaves(s.take(idx)).len() as int;
    let r = remove_id_in(s.skip(idx), n.id, idx, target, off, len);
    if idx < len {
        assert(s.skip(idx)[0] == s[idx]);
        assert(s.skip(idx).drop_first() =~= s.skip(idx + 1));
        lemma_entries_leaves_at(s, idx);
        let p = entries_leaves(s.take(idx));
        let l = s[idx].leaves();
        let all = n.leaves();
        assert(all == p + l + entries_leaves(s.skip(idx + 1)));
        lemma_remove_in_finds(n, idx + 1, target);
        let rest = remove_id_in(s.skip(idx + 1), n.id, idx + 1, target, off + l.len(), len);
        assert(entries_leaves(s.take(idx + 1)).len() == off + l.len());
        assert(all.subrange(off, off + l.len()) =~= l);
        match s[idx] {
            Entry::Child(_, c, _) => {
                assert(l == c.leaves());
                if c.id == target {
                    assert(r == (crate::trie::remove::removal_here(n.id, len), off, off + l.len()));
                    assert(s[idx].holds_id(n.id, idx, target));
                    assert(s[idx].id_leaves_at(n.id, idx, target, all.subrange(r.1, r.2)));
                } else {
                    law_remove_by_id_finds(*c, target);
                    let t = c.remove_id(target);
                    if t.0 is NotFound {
                        assert(r == rest);
                        assert(!s[idx].holds_id(n.id, idx, target));
                    } else {
                        assert(r == (crate::trie::remove::after_child_removal(t.0, n.id, len), off + t.1, off + t.2));
                        assert(s[idx].holds_id(n.id, idx, target));
                        assert(all.subrange(off + t.1, off + t.2) =~= c.leaves().subrange(t.1, t.2));
                        assert(s[idx].id_leaves_at(n.id, idx, target, all.subrange(r.1, r.2)));
                    }
                }
            },
            Entry::Leaf(_, _, _) => {
                if spec_leaf_id(n.id, idx as usize) == target {
                    assert(r == (crate::trie::remove::removal_here(n.id, len), off, off + 1));
                    assert(s[idx].holds_id(n.id, idx, target));
                    assert(s[idx].id_leaves_at(n.id, idx, target, all.subrange(r.1, r.2)));
                } else {
                    assert(r == rest);
                    assert(!s[idx].holds_id(n.id, idx, target));
                }
            },
        }
    } else {
        assert(s.skip(idx) =~= Seq::<Entry<K, V>>::empty());
    }
}

/// A removal by id succeeds exactly when some node or leaf below this node
/// has the id, and the leaves it removes are exactly those at and below that
/// node or leaf (the first one in key order, should several share the id).
pub proof fn law_remove_by_id_finds<K: HotKey, V>(n: HOTNode<K, V>, target: u64)
    ensures
        (n.remove_id(target).0 is NotFound) == !n.has_id(target),
        !(n.remove_id(target).0 is NotFound) ==> {
            let t = n.remove_id(target);
            &&& 0 <= t.1 <= t.2 <= n.leaves().len()
            &&& n.id_leaves(target, n.leaves().subrange(t.1, t.2))
        },
    decreases n, 1int, 0int,
{
    let s = n.entries@;
    assert(s.skip(0) =~= s);
    assert(s.take(0) =~= Seq::<Entry<K, V>>::empty());
    assert(entries_leaves(Seq::<Entry<K, V>>::empty()).len() == 0);
    lemma_remove_in_finds(n, 0, target);
    if n.has_id(target) {
        assert(exists|i: int| 0 <= i < n.entries@.len() && (#[trigger] n.entries@[i]).holds_id(n.id, i, target));
    }
    if exists|i: int| 0 <= i < s.len() && #[trigger] s[i].holds_id(n.id, i, target) {
        let i = choose|i: int| 0 <= i < s.len() && #[trigger] s[i].holds_id(n.id, i, target);
        assert(n.entries@[i].holds_id(n.id, i, target));
        assert(n.has_id(target));
    }
}

/// Where a scan stands after `steps`, starting from the stack `st`: for
/// each node entered, its id and the position of the entry the scan is at,
/// the current node last. A descent enters a node at its first entry, an
/// ascent leaves the current node, an advance moves to another entry.
pub open spec fn walk<K>(st: Seq<(u64, int)>, steps: Seq<ScanStep<K>>) -> Seq<(u64, int)>
    decreases steps.len(),
{
    if steps.len() == 0 {
        st
    } else {
        let w = walk(st, steps.drop_last());
        match steps.last() {
            ScanStep::Descend(c) => w.push((c, 0int)),
            ScanStep::Ascend(_) => if w.len() > 0 {
                w.drop_last()
            } else {
                w
            },
            ScanStep::Advance(_, i) => if w.len() > 0 {
                w.drop_last().push((w.last().0, i as int))
            } else {
                w
            },
            _ => w,
        }
    }
}

/// A step taken from the position `w` moves along the trie under `root`:
/// a visit names, by its id and key, the leaf at the current entry; a
/// descent enters the child node at the current entry; an ascent arrives at
/// the parent of the current node, whose current entry is that node; an
/// advance moves to the next entry of the current node.
pub open spec fn step_ok<K: HotKey, V>(root: HOTNode<K, V>, w: Seq<(u64, int)>, x: ScanStep<K>) -> bool {
    match x {
        ScanStep::VisitLeaf(lid, k) => w.len() >= 1 && root.has_leaf_at(w.last().0, w.last().1, k) && lid
            == spec_leaf_id(w.last().0, w.last().1 as usize),
        ScanStep::Descend(c) => w.len() >= 1 && root.has_child_at(w.last().0, w.last().1, c),
        ScanStep::Ascend(p) => w.len() >= 2 && w[w.len() - 2].0 == p && root.has_child_at(
            p,
            w[w.len() - 2].1,
            w.last().0,
        ),
        ScanStep::Advance(p, i) => w.len() >= 1 && w.last().0 == p && i == w.last().1 + 1,
    }
}

/// Every step of `steps`, taken from the position `st`, moves along the trie.
pub open spec fn walk_ok<K: HotKey, V>(root: HOTNode<K, V>, st: Seq<(u64, int)>, steps: Seq<ScanStep<K>>) -> bool {
    forall|k: int| 0 <= k < steps.len() ==> step_ok(root, walk(st, steps.take(k)), #[trigger] steps[k])
}

/// Steps taken one sequence after another.
pub proof fn lemma_walk_concat<K>(st: Seq<(u64, int)>, a: Seq<ScanStep<K>>, b: Seq<ScanStep<K>>)
    ensures
        walk(st, a + b) == walk(walk(st, a), b),
    decreases b.len(),
{
    if b.len() == 0 {
        assert(a + b =~= a);
    } else {
        assert((a + b).drop_last() =~= a + b.drop_last());
        assert((a + b).last() == b.last());
        lemma_walk_concat(st, a, b.drop_last());
    }
}

/// Two sequences of steps that each move along the trie do so one after the other.
pub proof fn lemma_walk_ok_concat<K: HotKey, V>(
    root: HOTNode<K, V>,
    st: Seq<(u64, int)>,
    a: Seq<ScanStep<K>>,
    b: Seq<ScanStep<K>>,
)
    requires
        walk_ok(root, st, a),
        walk_ok(root, walk(st, a), b),
    ensures
        walk_ok(root, st, a + b),
        walk(st, a + b) == walk(walk(st, a), b),
{
    lemma_walk_concat(st, a, b);
    assert forall|k: int| 0 <= k < (a + b).len() implies step_ok(root, walk(st, (a + b).take(k)), #[trigger] (a + b)[k]) by {
        if k < a.len() {
            assert((a + b).take(k) =~= a.take(k));
            assert((a + b)[k] == a[k]);
        } else {
            let j = k - a.len();
            assert((a + b).take(k) =~= a + b.take(j));
            assert((a + b)[k] == b[j]);
            lemma_walk_concat(st, a, b.take(j));
        }
    }
}

/// One step.
pub proof fn lemma_walk_one<K: HotKey, V>(root: HOTNode<K, V>, st: Seq<(u64, int)>, x: ScanStep<K>)
    ensures
        walk_ok(root, st, seq![x]) == step_ok(root, st, x),
        x is VisitLeaf ==> walk(st, seq![x]) == st,
        x is Descend ==> walk(st, seq![x]) == st.push((x->Descend_0, 0int)),
        x is Ascend && st.len() > 0 ==> walk(st, seq![x]) == st.drop_last(),
        x is Advance && st.len() > 0 ==> walk(st, seq![x]) == st.drop_last().push((st.last().0, x->Advance_1 as int)),
{
    assert(seq![x].take(0) =~= Seq::<ScanStep<K>>::empty());
    assert(seq![x].drop_last() =~= Seq::<ScanStep<K>>::empty());
    if step_ok(root, st, x) {
        assert forall|k: int| 0 <= k < seq![x].len() implies step_ok(root, walk(st, seq![x].take(k)), #[trigger] seq![x][k]) by {
            assert(k == 0);
        }
    }
    assert(seq![x][0] == x);
}

/// The scan of the entries of `m` from `idx` on, started with `m` the
/// current node of `st`, at entry `idx` when there is one, moves along the
/// trie under `root`, and, unless it stopped, ends in `m` at its last entry.
#[verifier::rlimit(40)]
pub proof fn lemma_entries_steps_walk<K: HotKey, V>(
    root: HOTNode<K, V>,
    m: HOTNode<K, V>,
    idx: int,
    st: Seq<(u64, int)>,
    end: Seq<u8>,
    f: usize,
)
    requires
        m.within(f),
        0 <= idx <= m.entries@.len(),
        st.len() >= 1,
        st.last().0 == m.id,
        idx < m.entries@.len() ==> st.last().1 == idx,
        forall|p: u64, j: int, q: u64| #[trigger] m.has_child_at(p, j, q) ==> root.has_child_at(p, j, q),
        forall|p: u64, j: int, k: K| #[trigger] m.has_leaf_at(p, j, k) ==> root.has_leaf_at(p, j, k),
    ensures
        ({
            let len = m.entries@.len() as int;
            let r = entries_steps(m.entries@.skip(idx), m.id, idx, len, end);
            &&& walk_ok(root, st, r.0)
            &&& !r.1 ==> walk(st, r.0) == st.drop_last().push((m.id, if idx < len { len - 1 } else { st.last().1 }))
        }),
    decreases m, m.entries@.len() - idx,
{
    let s = m.entries@;
    let len = s.len() as int;
    let r = entries_steps(s.skip(idx), m.id, idx, len, end);
    assert(st =~= st.drop_last().push(st.last()));
    if idx < len {
        assert(s.skip(idx)[0] == s[idx]);
        assert(s.skip(idx).drop_first() =~= s.skip(idx + 1));
        if bytes_lt(end, s[idx].spec_key().key_bytes()) {
            assert(r.0 =~= Seq::<ScanStep<K>>::empty());
            assert(walk_ok(root, st, r.0));
        } else {
            let rest = entries_steps(s.skip(idx + 1), m.id, idx + 1, len, end);
            let adv = advance_step::<K>(m.id, idx + 1, len);
            // the advance, when there is one, moves to the next entry
            let st1 = st.drop_last().push((m.id, idx + 1));
            if idx + 1 < len {
                assert(len <= f);
                assert(adv == seq![ScanStep::<K>::Advance(m.id, (idx + 1) as usize)]);
                lemma_walk_one(root, st, ScanStep::<K>::Advance(m.id, (idx + 1) as usize));
                assert(walk(st, adv) == st1);
                lemma_entries_steps_walk(root, m, idx + 1, st1, end, f);
                assert(st1.drop_last() =~= st.drop_last());
            } else {
                assert(adv =~= Seq::<ScanStep<K>>::empty());
                assert(walk_ok(root, st, adv));
                assert(s.skip(idx + 1) =~= Seq::<Entry<K, V>>::empty());
                assert(rest.0 =~= Seq::<ScanStep<K>>::empty());
                assert(walk_ok(root, st, rest.0));
            }
            let after_adv = walk(st, adv);
            assert(walk_ok(root, after_adv, rest.0));
            assert(!rest.1 ==> walk(after_adv, rest.0) == st.drop_last().push((m.id, len - 1)));
            match s[idx] {
                Entry::Leaf(k, _, _) => {
                    let x = ScanStep::VisitLeaf(spec_leaf_id(m.id, idx as usize), k);
                    let here = seq![x];
                    assert(s[idx].leaf_at(m.id, idx, m.id, idx, k));
                    assert(m.has_leaf_at(m.id, idx, k));
                    lemma_walk_one(root, st, x);
                    lemma_walk_ok_concat(root, st, here, adv);
                    lemma_walk_ok_concat(root, st, here + adv, rest.0);
                    assert(r.0 == here + adv + rest.0);
                },
                Entry::Child(_, c, _) => {
                    assert(s[idx].child_at(m.id, idx, m.id, idx, c.id));
                    assert(m.has_child_at(m.id, idx, c.id));
                    assert forall|p: u64, j: int, q: u64| #[trigger] c.has_child_at(p, j, q) implies root.has_child_at(p, j, q) by {
                        assert(s[idx].child_at(m.id, idx, p, j, q));
                        assert(m.has_child_at(p, j, q));
                    }
                    assert forall|p: u64, j: int, k: K| #[trigger] c.has_leaf_at(p, j, k) implies root.has_leaf_at(p, j, k) by {
                        assert(s[idx].leaf_at(m.id, idx, p, j, k));
                        assert(m.has_leaf_at(p, j, k));
                    }
                    let dx = ScanStep::<K>::Descend(c.id);
                    let d = seq![dx];
                    lemma_walk_one(root, st, dx);
                    let st2 = st.push((c.id, 0int));
                    assert(walk(st, d) == st2);
                    assert(c.entries@.skip(0) =~= c.entries@);
                    assert(s[idx].within(f));
                    lemma_entries_steps_walk(root, *c, 0, st2, end, f);
                    let sub = entries_steps(c.entries@, c.id, 0, c.entries@.len() as int, end);
                    lemma_walk_ok_concat(root, st, d, sub.0);
                    if !sub.1 {
                        let ax = ScanStep::<K>::Ascend(m.id);
                        let a = seq![ax];
                        let w = walk(st, d + sub.0);
                        assert(st2.drop_last() =~= st);
                        assert(w.drop_last() =~= st);
                        assert(w[w.len() - 2] == st.last());
                        lemma_walk_one(root, w, ax);
                        lemma_walk_ok_concat(root, st, d + sub.0, a);
                        assert(walk(st, d + sub.0 + a) == st);
                        assert(walk_ok(root, st, adv));
                        lemma_walk_ok_concat(root, st, d + sub.0 + a, adv);
                        lemma_walk_ok_concat(root, st, d + sub.0 + a + adv, rest.0);
                        assert(r.0 == d + sub.0 + a + adv + rest.0);
                    } else {
                        assert(r.0 == d + sub.0);
                    }
                },
            }
        }
    } else {
        assert(s.skip(idx) =~= Seq::<Entry<K, V>>::empty());
        assert(r.0 =~= Seq::<ScanStep<K>>::empty());
        assert(walk_ok(root, st, r.0));
    }
}

/// The steps of a range scan walk the trie: starting at the root's first
/// entry, each visit names, by its id and key, the leaf at the entry the
/// scan is at; each descent enters the child node at that entry; each
/// ascent arrives at the parent of the node the scan is in, the node that
/// holds it as the entry the scan is at; each advance moves to the next
/// entry of the node the scan is in. A scan that was not stopped by a key
/// above `end` ends back at the root. (No node holds more than `f`
/// entries, as in every trie, whose nodes hold at most its fanout.)
pub proof fn law_scan_steps_walk<K: HotKey, V>(root: HOTNode<K, V>, end: Seq<u8>, f: usize)
    requires
        root.within(f),
    ensures
        walk_ok(
            root,
            seq![(root.id, 0int)],
            entries_steps(root.entries@, root.id, 0, root.entries@.len() as int, end).0,
        ),
        !entries_steps(root.entries@, root.id, 0, root.entries@.len() as int, end).1 ==> walk(
            seq![(root.id, 0int)],
            entries_steps(root.entries@, root.id, 0, root.entries@.len() as int, end).0,
        ).len() == 1 && walk(
            seq![(root.id, 0int)],
            entries_steps(root.entries@, root.id, 0, root.entries@.len() as int, end).0,
        )[0].0 == root.id,
{
    assert(root.entries@.skip(0) =~= root.entries@);
    lemma_entries_steps_walk(root, root, 0, seq![(root.id, 0int)], end, f);
}

/// The keys that the visits of `steps` name, in order.
pub open spec fn visited<K>(steps: Seq<ScanStep<K>>) -> Seq<K>
    decreases steps.len(),
{
    if steps.len() == 0 {
        Seq::empty()
    } else {
        match steps[0] {
            ScanStep::VisitLeaf(_, k) => seq![k] + visited(steps.drop_first()),
            _ => visited(steps.drop_first()),
        }
    }
}

/// The keys of key-value pairs, in order.
pub open spec fn keys_of<K, V>(l: Seq<(K, V)>) -> Seq<K> {
    l.map_values(|x: (K, V)| x.0)
}

/// The visits of steps taken one sequence after another.
pub proof fn lemma_visited_concat<K>(a: Seq<ScanStep<K>>, b: Seq<ScanStep<K>>)
    ensures
        visited(a + b) == visited(a) + visited(b),
    decreases a.len(),
{
    if a.len() == 0 {
        assert(a + b =~= b);
        assert(visited(a) + visited(b) =~= visited(b));
    } else {
        assert((a + b)[0] == a[0]);
        assert((a + b).drop_first() =~= a.drop_first() + b);
        lemma_visited_concat(a.drop_first(), b);
        match a[0] {
            ScanStep::VisitLeaf(_, k) => {
                assert(seq![k] + visited(a.drop_first()) + visited(b) =~= seq![k] + (visited(a.drop_first()) + visited(b)));
            },
            _ => {},
        }
    }
}

/// The leaves of `l` scanned up to `end`: the first `p` of them, all not
/// above `end`, followed by none or by one above it; the scan stopped exactly
/// when some leaf is left.
pub open spec fn scanned_up_to<K: HotKey, V>(l: Seq<(K, V)>, end: Seq<u8>, p: int, stopped: bool) -> bool {
    &&& 0 <= p <= l.len()
    &&& forall|i: int| 0 <= i < p ==> !bytes_lt(end, (#[trigger] l[i]).0.key_bytes())
    &&& p < l.len() ==> bytes_lt(end, l[p].0.key_bytes())
    &&& stopped == (p < l.len())
}

/// The scan of the entries of `m` from `idx` on visits, in order, the
/// leaves below those entries up to the first one above `end`.
pub proof fn lemma_entries_steps_visits<K: HotKey, V>(m: HOTNode<K, V>, idx: int, end: Seq<u8>)
    requires
        m.wf(),
        0 <= idx <= m.entries@.len(),
    ensures
        ({
            let s = m.entries@;
            let l = entries_leaves(s.skip(idx));
            let r = entries_steps(s.skip(idx), m.id, idx, s.len() as int, end);
            exists|p: int| scanned_up_to(l, end, p, r.1) && #[trigger] visited(r.0) == keys_of(l.take(p))
        }),
    decreases m, m.entries@.len() - idx,
{
    let s = m.entries@;
    let len = s.len() as int;
    let l = entries_leaves(s.skip(idx));
    let r = entries_steps(s.skip(idx), m.id, idx, len, end);
    if idx < len {
        assert(s.skip(idx)[0] == s[idx]);
        assert(s.skip(idx).drop_first() =~= s.skip(idx + 1));
        let t = s.skip(idx + 1);
        let lt = entries_leaves(t);
        assert(s.skip(idx) =~= seq![s[idx]] + t);
        crate::trie::lemmas::lemma_entries_leaves_concat(seq![s[idx]], t);
        crate::trie::lemmas::lemma_entries_leaves_single(s[idx]);
        crate::trie::lemmas::lemma_wf_entry(m, idx);
        let le = s[idx].leaves();
        assert(l == le + lt);
        assert(l[0] == le[0]);
        if bytes_lt(end, s[idx].spec_key().key_bytes()) {
            assert(r.0 =~= Seq::<ScanStep<K>>::empty());
            assert(visited(r.0) =~= keys_of(l.take(0)));
            assert(scanned_up_to(l, end, 0, r.1));
        } else {
            lemma_entries_steps_visits(m, idx + 1, end);
            let rest = entries_steps(t, m.id, idx + 1, len, end);
            let pr = choose|p: int| scanned_up_to(lt, end, p, rest.1) && #[trigger] visited(rest.0) == keys_of(lt.take(p));
            let adv = advance_step::<K>(m.id, idx + 1, len);
            assert(visited(adv) =~= Seq::<K>::empty()) by {
                if idx + 1 < len {
                    assert(adv.drop_first() =~= Seq::<ScanStep<K>>::empty());
                    assert(visited(adv.drop_first()) =~= Seq::<K>::empty());
                    assert(adv[0] == ScanStep::<K>::Advance(m.id, (idx + 1) as usize));
                } else {
                    assert(adv =~= Seq::<ScanStep<K>>::empty());
                }
            }
            match s[idx] {
                Entry::Leaf(k, v, _) => {
                    let here = seq![ScanStep::VisitLeaf(spec_leaf_id(m.id, idx as usize), k)];
                    assert(here.drop_first() =~= Seq::<ScanStep<K>>::empty());
                    assert(visited(here.drop_first()) =~= Seq::<K>::empty());
                    assert(here[0] == ScanStep::VisitLeaf(spec_leaf_id(m.id, idx as usize), k));
                    assert(visited(here) =~= seq![k] + Seq::<K>::empty());
                    assert(visited(here) =~= seq![k]);
                    lemma_visited_concat(here, adv);
                    lemma_visited_concat(here + adv, rest.0);
                    assert(r.0 == here + adv + rest.0);
                    assert(le =~= seq![(k, v)]);
                    let p = pr + 1;
                    assert(l.take(p) =~= seq![(k, v)] + lt.take(pr));
                    assert(keys_of(l.take(p)) =~= seq![k] + keys_of(lt.take(pr)));
                    assert(visited(r.0) =~= seq![k] + keys_of(lt.take(pr)));
                    assert forall|i: int| 0 <= i < p implies !bytes_lt(end, (#[trigger] l[i]).0.key_bytes()) by {
                        if i > 0 {
                            assert(l[i] == lt[i - 1]);
                        }
                    }
                    if p < l.len() {
                        assert(l[p] == lt[pr]);
                    }
                    assert(scanned_up_to(l, end, p, r.1));
                },
                Entry::Child(_, c, _) => {
                    assert(s[idx].child_ok(m.height));
                    assert(c.entries@.skip(0) =~= c.entries@);
                    lemma_entries_steps_visits(*c, 0, end);
                    let sub = entries_steps(c.entries@, c.id, 0, c.entries@.len() as int, end);
                    let lc = c.leaves();
                    assert(le == lc);
                    let pc = choose|p: int| scanned_up_to(lc, end, p, sub.1) && #[trigger] visited(sub.0) == keys_of(lc.take(p));
                    let d = seq![ScanStep::<K>::Descend(c.id)];
                    assert(d.drop_first() =~= Seq::<ScanStep<K>>::empty());
                    assert(visited(d.drop_first()) =~= Seq::<K>::empty());
                    assert(d[0] == ScanStep::<K>::Descend(c.id));
                    assert(visited(d) =~= Seq::<K>::empty());
                    lemma_visited_concat(d, sub.0);
                    assert forall|i: int| 0 <= i < pc implies !bytes_lt(end, (#[trigger] l[i]).0.key_bytes()) by {
                        assert(l[i] == lc[i]);
                    }
                    if sub.1 {
                        assert(r.0 == d + sub.0);
                        assert(l.take(pc) =~= lc.take(pc));
                        assert(l[pc] == lc[pc]);
                        assert(visited(r.0) =~= keys_of(l.take(pc)));
                        assert(scanned_up_to(l, end, pc, r.1));
                    } else {
                        let a = seq![ScanStep::<K>::Ascend(m.id)];
                        assert(a.drop_first() =~= Seq::<ScanStep<K>>::empty());
                        assert(visited(a.drop_first()) =~= Seq::<K>::empty());
                        assert(a[0] == ScanStep::<K>::Ascend(m.id));
                        assert(visited(a) =~= Seq::<K>::empty());
                        lemma_visited_concat(d + sub.0, a);
                        lemma_visited_concat(d + sub.0 + a, adv);
                        lemma_visited_concat(d + sub.0 + a + adv, rest.0);
                        assert(r.0 == d + sub.0 + a + adv + rest.0);
                        assert(pc == lc.len());
                        let p = pc + pr;
                        assert(lc.take(pc) =~= lc);
                        assert(l.take(p) =~= lc + lt.take(pr));
                        assert(keys_of(l.take(p)) =~= keys_of(lc) + keys_of(lt.take(pr)));
                        assert(visited(r.0) =~= keys_of(lc) + keys_of(lt.take(pr)));
                        assert forall|i: int| 0 <= i < p implies !bytes_lt(end, (#[trigger] l[i]).0.key_bytes()) by {
                            if i >= pc {
                                assert(l[i] == lt[i - pc]);
                            } else {
                                assert(l[i] == lc[i]);
                            }
                        }
                        if p < l.len() {
                            assert(l[p] == lt[pr]);
                        }
                        assert(scanned_up_to(l, end, p, r.1));
                    }
                },
            }
        }
    } else {
        assert(s.skip(idx) =~= Seq::<Entry<K, V>>::empty());
        assert(l =~= Seq::<(K, V)>::empty());
        assert(visited(r.0) =~= keys_of(l.take(0)));
        assert(scanned_up_to(l, end, 0, r.1));
    }
}

/// A range scan visits the trie's leaves in key order, from the first, up
/// to the first leaf whose key is above `end`: the keys it visits are the
/// trie's first keys, all not above `end`, and the next key, if any, is
/// above it; the scan reports that it stopped exactly when a key is left.
pub proof fn law_scan_steps_visits<K: HotKey, V>(root: HOTNode<K, V>, end: Seq<u8>)
    requires
        root.wf(),
    ensures
        exists|p: int|
            scanned_up_to(root.leaves(), end, p, entries_steps(root.entries@, root.id, 0, root.entries@.len() as int, end).1)
                && #[trigger] visited(entries_steps(root.entries@, root.id, 0, root.entries@.len() as int, end).0)
                == keys_of(root.leaves().take(p)),
{
    let s = root.entries@;
    assert(s.skip(0) =~= s);
    lemma_entries_steps_visits(root, 0, end);
    let r = entries_steps(s, root.id, 0, s.len() as int, end);
    let p = choose|p: int| scanned_up_to(entries_leaves(s), end, p, r.1) && #[trigger] visited(r.0) == keys_of(entries_leaves(s).take(p));
    assert(scanned_up_to(root.leaves(), end, p, r.1));
}
} // verus!
