use vstd::prelude::*;
use crate::trie::entry::Entry;
use crate::trie::key::{HotKey, KeyOrder, bytes_lt, max_key_bytes};
use crate::trie::node::{
    HOTNode, entries_leaves, sorted_leaves, keys_fit, all_below, strictly_increasing, spec_leaf_id, leaf_id,
    offset_for, entries_within, adjacent_diff_bits, refreshed, same_contents,
};
use crate::trie::lemmas::{
    lemma_entries_leaves_concat, lemma_entries_leaves_single, lemma_entries_leaves_at, lemma_sorted_concat,
    lemma_wf_entry, lemma_wf_parts, lemma_wf_reps_fit, lemma_wf_same_contents, lemma_within_node, lemma_within_entry,
    lemma_same_contents_within, lemma_within_update, lemma_within_remove, lemma_within_partial_key, lemma_entry_same_as_itself,
    lemma_node_same_as_itself, lemma_same_contents_refresh,
};
use crate::trie::insert::{lemma_leaves_insert_at, lemma_leaves_remove_at, lemma_wf_intro, lemma_wf_first};
use crate::trie::hot::RemoveResult;
use crate::trie::lookup::key_slot;

verus! {

/// The kind of a removal and the node ids it reports.
pub enum RemovalShape {
    NotFound,
    Removed(Seq<u64>),
    Empty,
    Underflow(Seq<u64>),
}

impl<K, V> RemoveResult<K, V> {
    /// What a removal leaves, the node or the entry handed up, keeps every
    /// node within `fanout` entries.
    pub open spec fn removal_within(self, node: HOTNode<K, V>, fanout: usize) -> bool {
        match self {
            RemoveResult::Underflow(e, _) => e.within(fanout),
            RemoveResult::Empty => true,
            _ => node.within(fanout),
        }
    }

    /// The kind of the result and the node ids it reports.
    pub open spec fn shape(self) -> RemovalShape {
        match self {
            RemoveResult::NotFound => RemovalShape::NotFound,
            RemoveResult::Removed(ids) => RemovalShape::Removed(ids@),
            RemoveResult::Empty => RemovalShape::Empty,
            RemoveResult::Underflow(_, ids) => RemovalShape::Underflow(ids@),
        }
    }
}

/// Removing one of `len` entries from node `node_id`: the node becomes empty,
/// underflows with one entry left, or keeps at least two.
pub open spec fn removal_here(node_id: u64, len: int) -> RemovalShape {
    if len == 1 {
        RemovalShape::Empty
    } else if len == 2 {
        RemovalShape::Underflow(seq![node_id])
    } else {
        RemovalShape::Removed(seq![node_id])
    }
}

/// What a node of `len` entries reports after a removal in one of its children.
pub open spec fn after_child_removal(child: RemovalShape, node_id: u64, len: int) -> RemovalShape {
    match child {
        RemovalShape::NotFound => RemovalShape::NotFound,
        RemovalShape::Removed(ids) => RemovalShape::Removed(ids),
        RemovalShape::Empty => removal_here(node_id, len),
        RemovalShape::Underflow(ids) => if len == 1 {
            RemovalShape::Underflow(ids.push(node_id))
        } else {
            RemovalShape::Removed(ids)
        },
    }
}

/// The removal of the node or leaf with id `target` across entries `s` of
/// node `node_id` (with `len` entries), the first of which sits at `idx` and
/// whose leaves start at `off`: entries are tried in order; a child with the
/// id, or a leaf with the id, is removed; otherwise a child is searched and
/// decides the outcome when it finds the id. Returns the outcome and the
/// range of removed leaves.
pub open spec fn remove_id_in<K: HotKey, V>(
    s: Seq<Entry<K, V>>,
    node_id: u64,
    idx: int,
    target: u64,
    off: int,
    len: int,
) -> (RemovalShape, int, int)
    decreases s,
{
    if s.len() == 0 {
        (RemovalShape::NotFound, 0, 0)
    } else {
        let rest = remove_id_in(s.drop_first(), node_id, idx + 1, target, off + s[0].leaves().len(), len);
        match s[0] {
            Entry::Child(_, n, _) => {
                if n.id == target {
                    (removal_here(node_id, len), off, off + s[0].leaves().len())
                } else {
                    let t = n.remove_id(target);
                    if t.0 is NotFound {
                        rest
                    } else {
                        (after_child_removal(t.0, node_id, len), off + t.1, off + t.2)
                    }
                }
            },
            Entry::Leaf(_, _, _) => {
                if spec_leaf_id(node_id, idx as usize) == target {
                    (removal_here(node_id, len), off, off + 1)
                } else {
                    rest
                }
            },
        }
    }
}

impl<K: HotKey, V> HOTNode<K, V> {
    /// The outcome of removing `key` from this node and the index of the leaf
    /// removed: the key descends by representative keys to one entry; a leaf
    /// with the key's bytes is removed, a child decides the outcome.
    pub open spec fn remove_key(self, key: K) -> (RemovalShape, int)
        decreases self,
    {
        let t = key_slot(self.entries@, key.key_bytes());
        let len = self.entries@.len() as int;
        if 0 <= t < len {
            let off = entries_leaves(self.entries@.take(t)).len() as int;
            match self.entries@[t] {
                Entry::Leaf(k, _, _) => if k.key_bytes() == key.key_bytes() {
                    (removal_here(self.id, len), off)
                } else {
                    (RemovalShape::NotFound, 0)
                },
                Entry::Child(_, n, _) => {
                    let c = n.remove_key(key);
                    (after_child_removal(c.0, self.id, len), off + c.1)
                },
            }
        } else {
            (RemovalShape::NotFound, 0)
        }
    }

    /// The outcome of removing the node or leaf with id `target` below this
    /// node and the range of leaves removed.
    pub open spec fn remove_id(self, target: u64) -> (RemovalShape, int, int)
        decreases self,
    {
        remove_id_in(self.entries@, self.id, 0, target, 0, self.entries@.len() as int)
    }
}

/// What a removal from `old` that left `new` and returned `r` guarantees,
/// `rest` being the leaves that remain: a node that keeps entries is well
/// formed at its height and holds `rest`; an emptied node held only what was
/// removed; an underflowing node hands up one sound, lower entry holding `rest`.
pub open spec fn removal_outcome<K: HotKey, V>(
    old: HOTNode<K, V>,
    new: HOTNode<K, V>,
    r: RemoveResult<K, V>,
    rest: Seq<(K, V)>,
) -> bool {
    match r {
        RemoveResult::NotFound => false,
        RemoveResult::Removed(_) => {
            &&& new.wf()
            &&& new.entries@.len() > 0
            &&& new.height == old.height
            &&& new.id == old.id
            &&& new.leaves() == rest
        },
        RemoveResult::Empty => new.entries@.len() == 0 && rest.len() == 0,
        RemoveResult::Underflow(e, _) => {
            &&& new.entries@.len() == 0
            &&& e.sound()
            &&& (e matches Entry::Child(_, n, _) ==> n.height < old.height)
            &&& e.leaves() == rest
        },
    }
}

/// A node left with the same leaves, still well formed, with the same id,
/// height and number of entries.
pub open spec fn kept<K: HotKey, V>(old: HOTNode<K, V>, new: HOTNode<K, V>) -> bool {
    &&& new.wf()
    &&& new.leaves() == old.leaves()
    &&& new.id == old.id
    &&& new.height == old.height
    &&& new.entries@.len() == old.entries@.len()
}

/// The node is well formed once entry `idx` is taken out.
pub open spec fn good_without<K: HotKey, V>(n: HOTNode<K, V>, idx: int) -> bool {
    &&& 0 <= idx < n.entries@.len()
    &&& n.byte_offset <= usize::MAX / 8
    &&& strictly_increasing(n.mask@)
    &&& forall|i: int| 0 <= i < n.entries@.len() && i != idx ==> (#[trigger] n.entries@[i]).child_ok(n.height)
    &&& sorted_leaves(entries_leaves(n.entries@.remove(idx)))
    &&& keys_fit(entries_leaves(n.entries@.remove(idx)))
}

/// Taking a range out of a sorted sequence keeps it sorted.
pub proof fn lemma_sorted_cut<K: HotKey, V>(s: Seq<(K, V)>, lo: int, hi: int)
    requires
        sorted_leaves(s),
        keys_fit(s),
        0 <= lo <= hi <= s.len(),
    ensures
        sorted_leaves(s.take(lo) + s.skip(hi)),
        keys_fit(s.take(lo) + s.skip(hi)),
{
    let t = s.take(lo) + s.skip(hi);
    assert forall|a: int, b: int| 0 <= a < b < t.len() implies bytes_lt(
        #[trigger] t[a].0.key_bytes(),
        #[trigger] t[b].0.key_bytes(),
    ) by {
        let sa = if a < lo { a } else { a - lo + hi };
        let sb = if b < lo { b } else { b - lo + hi };
        assert(t[a] == s[sa] && t[b] == s[sb]);
    }
    assert forall|a: int| 0 <= a < t.len() implies (#[trigger] t[a]).0.key_bytes().len() <= max_key_bytes() by {
        let sa = if a < lo { a } else { a - lo + hi };
        assert(t[a] == s[sa]);
    }
}

impl<K: HotKey, V> HOTNode<K, V> {
    /// Finishes a removal: drops the entry at `to_remove`, or puts the entry
    /// handed up by an underflowing child in its slot; then reports whether
    /// this node became empty, underflowed or kept at least two entries.
    fn handle_removal_post_process(
        &mut self,
        to_remove: Option<usize>,
        underflow_entry: Option<(usize, Entry<K, V>, Vec<u64>)>,
        child_updated: bool,
    ) -> (r: RemoveResult<K, V>)
        requires
            to_remove matches Some(idx) ==> underflow_entry is None && good_without(*old(self), idx as int),
            underflow_entry matches Some(u) ==> {
                &&& to_remove is None
                &&& good_without(*old(self), u.0 as int)
                &&& u.1.sound()
                &&& (u.1 matches Entry::Child(_, n, _) ==> n.height < old(self).height)
                &&& sorted_leaves(entries_leaves(old(self).entries@.update(u.0 as int, u.1)))
                &&& keys_fit(entries_leaves(old(self).entries@.update(u.0 as int, u.1)))
            },
            to_remove is None && underflow_entry is None ==> old(self).wf(),
        ensures
            to_remove matches Some(idx) ==> {
                &&& r.shape() == removal_here(old(self).id, old(self).entries@.len() as int)
                &&& removal_outcome(*old(self), *final(self), r, entries_leaves(old(self).entries@.remove(idx as int)))
            },
            underflow_entry matches Some(u) ==> {
                &&& r.shape() == (if old(self).entries@.len() == 1 {
                    RemovalShape::Underflow(u.2@.push(old(self).id))
                } else {
                    RemovalShape::Removed(u.2@)
                })
                &&& removal_outcome(*old(self), *final(self), r, entries_leaves(old(self).entries@.update(u.0 as int, u.1)))
            },
            to_remove is None && underflow_entry is None ==> {
                &&& *final(self) == *old(self)
                &&& kept(*old(self), *final(self))
                &&& if child_updated {
                    r.shape() == RemovalShape::Removed(seq![old(self).id])
                } else {
                    r is NotFound
                }
            },
            forall|f: usize|
                #![trigger old(self).within(f)]
                old(self).within(f) && (underflow_entry matches Some(u) ==> u.1.within(f)) ==> r.removal_within(
                    *final(self),
                    f,
                ),
            // a node that keeps at least two entries has one entry less, or the
            // handed-up entry in the child's slot, under a recomputed mask
            to_remove matches Some(idx) ==> (r is Removed ==> {
                let t = old(self).entries@.remove(idx as int);
                &&& final(self).entries@.len() == t.len()
                &&& final(self).mask@.to_set() == adjacent_diff_bits(t)
                &&& final(self).byte_offset == offset_for(final(self).mask@)
                &&& refreshed(t, final(self).entries@, final(self).mask@, final(self).byte_offset)
            }),
            underflow_entry matches Some(u) ==> (r is Removed ==> {
                let t = old(self).entries@.update(u.0 as int, u.1);
                &&& final(self).entries@.len() == t.len()
                &&& final(self).mask@.to_set() == adjacent_diff_bits(t)
                &&& final(self).byte_offset == offset_for(final(self).mask@)
                &&& refreshed(t, final(self).entries@, final(self).mask@, final(self).byte_offset)
            }),
    {
        let ghost o = *old(self);
        let ghost s = self.entries@;
        if let Some(idx) = to_remove {
            self.entries.remove(idx);
            proof {
                assert forall|i: int| 0 <= i < self.entries@.len() implies (#[trigger] self.entries@[i]).child_ok(self.height) by {
                    if i < idx {
                        assert(self.entries@[i] == s[i]);
                    } else {
                        assert(self.entries@[i] == s[i + 1]);
                    }
                }
                lemma_wf_intro(*self);
                lemma_wf_reps_fit(*self);
            }
            let ghost before = *self;
            self.update_mask_from_entries();
            let ghost es = self.entries@;
            proof {
                lemma_wf_same_contents(before, *self);
                assert forall|f: usize| #[trigger] o.within(f) implies entries_within(es, f) && es.len() <= f by {
                    lemma_within_node(o, f);
                    lemma_within_remove(s, idx as int, f);
                    lemma_same_contents_within(before.entries@, es, f);
                }
            }
            if self.entries.len() == 0 {
                proof {
                    assert(self.leaves() =~= Seq::<(K, V)>::empty());
                }
                return RemoveResult::Empty;
            } else if self.entries.len() == 1 {
                let ghost e0 = self.entries@[0];
                proof {
                    assert(self.entries@ =~= seq![e0]);
                    lemma_entries_leaves_single(e0);
                    assert(e0.child_ok(self.height));
                    assert forall|f: usize| #[trigger] o.within(f) implies e0.within(f) by {
                        assert(entries_within(es, f));
                        assert(es[0].within(f));
                    }
                }
                let e = self.entries.remove(0);
                let mut ids: Vec<u64> = Vec::new();
                ids.push(self.id);
                assert(ids@ =~= seq![o.id]);
                return RemoveResult::Underflow(e, ids);
            } else {
                let mut ids: Vec<u64> = Vec::new();
                ids.push(self.id);
                assert(ids@ =~= seq![o.id]);
                proof {
                    assert forall|f: usize| #[trigger] o.within(f) implies self.within(f) by {
                        lemma_within_node(*self, f);
                    }
                }
                return RemoveResult::Removed(ids);
            }
        }
        if let Some((idx, child_entry, collapsed)) = underflow_entry {
            let mut child_entry = child_entry;
            let mut collapsed = collapsed;
            let new_pk = self.extract_partial_key(child_entry.key());
            let ghost ce = child_entry;
            child_entry.set_partial_key(new_pk);
            proof {
                assert(child_entry.leaves() == ce.leaves()) by {
                    match ce {
                        Entry::Leaf(k, v, p) => {},
                        Entry::Child(k, n, p) => {},
                    }
                }
                assert(child_entry.sound() == ce.sound());
            }
            self.entries.set(idx, child_entry);
            proof {
                let t = s.update(idx as int, ce);
                assert(t =~= s.remove(idx as int).insert(idx as int, ce));
                assert(self.entries@ =~= s.remove(idx as int).insert(idx as int, child_entry));
                lemma_leaves_insert_at(s.remove(idx as int), idx as int, ce);
                lemma_leaves_insert_at(s.remove(idx as int), idx as int, child_entry);
                assert forall|i: int| 0 <= i < self.entries@.len() implies (#[trigger] self.entries@[i]).child_ok(self.height) by {
                    if i != idx {
                        assert(self.entries@[i] == s[i]);
                    }
                }
                lemma_wf_intro(*self);
                lemma_wf_reps_fit(*self);
            }
            let ghost before = *self;
            self.update_mask_from_entries();
            let ghost es = self.entries@;
            proof {
                lemma_wf_same_contents(before, *self);
                assert(same_contents(s.update(idx as int, ce), before.entries@)) by {
                    assert forall|i: int| 0 <= i < s.len() implies (#[trigger] s.update(idx as int, ce)[i]).same_content(
                        before.entries@[i],
                    ) by {
                        if i != idx {
                            assert(before.entries@[i] == s[i]);
                            match s[i] {
                                Entry::Leaf(_, _, _) => {},
                                Entry::Child(_, _, _) => {},
                            }
                        } else {
                            match ce {
                                Entry::Leaf(_, _, _) => {},
                                Entry::Child(_, _, _) => {},
                            }
                        }
                    }
                }
                lemma_same_contents_refresh(s.update(idx as int, ce), before.entries@, es, self.mask@, self.byte_offset);
                assert forall|f: usize| #![trigger o.within(f)] o.within(f) && ce.within(f) implies entries_within(es, f)
                    && es.len() <= f by {
                    lemma_within_node(o, f);
                    lemma_within_partial_key(ce, new_pk, f);
                    lemma_within_update(s, idx as int, child_entry, f);
                    lemma_same_contents_within(before.entries@, es, f);
                }
            }
            if self.entries.len() == 1 {
                collapsed.push(self.id);
                let ghost e0 = self.entries@[0];
                proof {
                    assert(self.entries@ =~= seq![e0]);
                    lemma_entries_leaves_single(e0);
                    assert(e0.child_ok(self.height));
                    assert forall|f: usize| #![trigger o.within(f)] o.within(f) && ce.within(f) implies e0.within(f) by {
                        assert(entries_within(es, f));
                        assert(es[0].within(f));
                    }
                }
                let e = self.entries.remove(0);
                return RemoveResult::Underflow(e, collapsed);
            } else {
                proof {
                    assert forall|f: usize| #![trigger o.within(f)] o.within(f) && ce.within(f) implies self.within(f) by {
                        lemma_within_node(*self, f);
                    }
                }
                return RemoveResult::Removed(collapsed);
            }
        }
        if child_updated {
            let mut ids: Vec<u64> = Vec::new();
            ids.push(self.id);
            assert(ids@ =~= seq![o.id]);
            return RemoveResult::Removed(ids);
        }
        RemoveResult::NotFound
    }
}

/// Removing inside a middle part of a concatenation.
pub proof fn lemma_remove_in_middle<T>(p: Seq<T>, l: Seq<T>, s: Seq<T>, lo: int, hi: int)
    requires
        0 <= lo <= hi <= l.len(),
    ensures
        (p + l + s).take(p.len() + lo) + (p + l + s).skip(p.len() + hi) == p + (l.take(lo) + l.skip(hi)) + s,
{
    assert((p + l + s).take(p.len() + lo) + (p + l + s).skip(p.len() + hi) =~= p + (l.take(lo) + l.skip(hi)) + s);
}

impl<K: HotKey, V> HOTNode<K, V> {
    /// Performs a removal by key with underflow handling: the entries whose
    /// partial key matches the key's are tried in order; a leaf with the key
    /// is removed, the first matching child decides the outcome.
    #[verifier::rlimit(40)]
    pub fn remove(&mut self, key: &K) -> (r: RemoveResult<K, V>)
        requires
            old(self).wf(),
        ensures
            r.shape() == old(self).remove_key(*key).0,
            r is NotFound ==> kept(*old(self), *final(self)),
            !(r is NotFound) ==> {
                let j = old(self).remove_key(*key).1;
                &&& 0 <= j < old(self).leaves().len()
                &&& old(self).leaves()[j].0.key_bytes() == key.key_bytes()
                &&& removal_outcome(*old(self), *final(self), r, old(self).leaves().remove(j))
            },
            forall|f: usize| #[trigger] old(self).within(f) ==> r.removal_within(*final(self), f),
            // a key that is not found leaves the node as it was
            r is NotFound ==> final(self).same_as(*old(self)),
        decreases old(self).height,
    {
        let ghost o = *old(self);
        let ghost s = self.entries@;
        let ghost len = s.len() as int;
        let child_updated = false;
        let mask = self.mask.clone();
        proof {
            assert(mask@ =~= self.mask@);
        }
        let slot = self.find_slot(key);
        if let Some(i) = slot {
            let ghost off = entries_leaves(s.take(i as int)).len() as int;
            let ghost p = entries_leaves(s.take(i as int));
            let ghost sfx = entries_leaves(s.skip(i + 1));
            let ghost l = s[i as int].leaves();
            proof {
                assert(s.skip(i as int)[0] == s[i as int]);
                assert(s.skip(i as int).drop_first() =~= s.skip(i + 1));
                lemma_wf_entry(o, i as int);
                lemma_entries_leaves_at(s, i as int);
                assert(o.leaves() == p + l + sfx);
            }
            {
                if self.entries[i].is_leaf() {
                    if self.entries[i].key().compare_key(key) == KeyOrder::Equal {
                        proof {
                            lemma_leaves_remove_at(s, i as int);
                            assert(l =~= seq![(s[i as int]->Leaf_0, s[i as int]->Leaf_1)]);
                            lemma_remove_in_middle(p, l, sfx, 0, 1);
                            assert(l.take(0) + l.skip(1) =~= Seq::<(K, V)>::empty());
                            assert(p + Seq::<(K, V)>::empty() + sfx =~= p + sfx);
                            assert(o.leaves().remove(off) =~= o.leaves().take(off) + o.leaves().skip(off + 1));
                            lemma_sorted_cut(o.leaves(), off, off + 1);
                            assert(o.leaves()[off] == l[0]);
                            assert(s.skip(i as int)[0] is Leaf);
                            assert(o.remove_key(*key) == (
                            removal_here(o.id, len), off));
                        }
                        return self.handle_removal_post_process(Some(i), None, child_updated);
                    }
                } else {
                    let entry = self.entries.remove(i);
                    match entry {
                        Entry::Child(rep, mut node, pk) => {
                            let ghost old_node = *node;
                            proof {
                                assert(s[i as int].child_ok(o.height));
                                assert(old_node.height < o.height);
                                assert(o.remove_key(*key) == (
                                after_child_removal(old_node.remove_key(*key).0, o.id, len), off + old_node.remove_key(*key).1));
                            }
                            let res = node.remove(key);
                            let ghost jc = old_node.remove_key(*key).1;
                            proof {
                                if !(res is NotFound) {
                                    lemma_remove_in_middle(p, l, sfx, jc, jc + 1);
                                    assert(l.remove(jc) =~= l.take(jc) + l.skip(jc + 1));
                                    assert(o.leaves().remove(off + jc) =~= o.leaves().take(off + jc) + o.leaves().skip(off + jc + 1));
                                    lemma_sorted_cut(o.leaves(), off + jc, off + jc + 1);
                                    assert(o.leaves()[off + jc] == l[jc]);
                                }
                            }
                            match res {
                                RemoveResult::NotFound => {
                                    let ghost new_entry = Entry::Child(rep, node, pk);
                                    self.entries.insert(i, Entry::Child(rep, node, pk));
                                    proof {
                                        assert(self.entries@ =~= s.remove(i as int).insert(i as int, new_entry));
                                        lemma_leaves_remove_at(s, i as int);
                                        lemma_leaves_insert_at(s.remove(i as int), i as int, new_entry);
                                        assert(self.leaves() =~= o.leaves());
                                        assert forall|j: int| 0 <= j < self.entries@.len() implies (#[trigger] self.entries@[j]).child_ok(self.height) by {
                                            if j != i {
                                                assert(self.entries@[j] == s[j]);
                                            }
                                        }
                                        lemma_wf_intro(*self);
                                        assert(self.entries@ =~= s.update(i as int, new_entry));
                                        assert forall|f: usize| #[trigger] o.within(f) implies self.within(f) by {
                                            lemma_within_node(o, f);
                                            lemma_within_entry(s[i as int], f);
                                            lemma_within_entry(new_entry, f);
                                            lemma_within_update(s, i as int, new_entry, f);
                                            lemma_within_node(*self, f);
                                        }
                                        assert forall|j: int| 0 <= j < self.entries@.len() implies (#[trigger] self.entries@[j]).same_as(
                                            o.entries@[j],
                                        ) by {
                                            if j != i {
                                                lemma_entry_same_as_itself(s[j]);
                                            }
                                        }
                                    }
                                    return RemoveResult::NotFound;
                                },
                                RemoveResult::Removed(ids) => {
                                    proof {
                                        lemma_wf_first(*node);
                                    }
                                    let new_rep = node.entries[0].key().clone_key();
                                    let offset: usize = if mask.len() > 0 { mask[0] / 8 } else { 0 };
                                    let ghost new_entry;
                                    if new_rep.compare_key(&rep) != KeyOrder::Equal {
                                        let new_pk = Self::extract_partial_key_static(mask.as_slice(), offset, &new_rep);
                                        proof {
                                            new_entry = Entry::Child(new_rep, node, new_pk);
                                        }
                                        self.entries.insert(i, Entry::Child(new_rep, node, new_pk));
                                    } else {
                                        proof {
                                            new_entry = Entry::Child(rep, node, pk);
                                        }
                                        self.entries.insert(i, Entry::Child(rep, node, pk));
                                    }
                                    proof {
                                        assert(self.entries@ =~= s.update(i as int, new_entry));
                                        assert(s.update(i as int, new_entry) =~= s.remove(i as int).insert(i as int, new_entry));
                                        lemma_leaves_remove_at(s, i as int);
                                        lemma_leaves_insert_at(s.remove(i as int), i as int, new_entry);
                                        assert(self.leaves() =~= p + l.remove(jc) + sfx);
                                        assert forall|j: int| 0 <= j < self.entries@.len() implies (#[trigger] self.entries@[j]).child_ok(self.height) by {
                                            if j != i {
                                                assert(self.entries@[j] == s[j]);
                                            }
                                        }
                                        lemma_wf_intro(*self);
                                        assert forall|f: usize| #[trigger] o.within(f) implies self.within(f) by {
                                            lemma_within_node(o, f);
                                            lemma_within_entry(s[i as int], f);
                                            lemma_within_entry(new_entry, f);
                                            lemma_within_update(s, i as int, new_entry, f);
                                            lemma_within_node(*self, f);
                                        }
                                    }
                                    return RemoveResult::Removed(ids);
                                },
                                RemoveResult::Empty => {
                                    let ghost ce = Entry::Child(rep, node, pk);
                                    self.entries.insert(i, Entry::Child(rep, node, pk));
                                    proof {
                                        assert(self.entries@ =~= s.update(i as int, ce));
                                        assert(self.entries@.remove(i as int) =~= s.remove(i as int));
                                        lemma_leaves_remove_at(s, i as int);
                                        assert(l.remove(jc).len() == 0);
                                        assert(p + l.remove(jc) + sfx =~= p + sfx);
                                        assert forall|f: usize| #[trigger] o.within(f) implies self.within(f) by {
                                            lemma_within_node(o, f);
                                            lemma_within_node(*node, f);
                                            lemma_within_entry(ce, f);
                                            lemma_within_update(s, i as int, ce, f);
                                            lemma_within_node(*self, f);
                                        }
                                    }
                                    return self.handle_removal_post_process(Some(i), None, child_updated);
                                },
                                RemoveResult::Underflow(child_entry, collapsed) => {
                                    let ghost ce = Entry::Child(rep, node, pk);
                                    self.entries.insert(i, Entry::Child(rep, node, pk));
                                    proof {
                                        assert(self.entries@ =~= s.update(i as int, ce));
                                        assert(self.entries@.remove(i as int) =~= s.remove(i as int));
                                        lemma_leaves_remove_at(s, i as int);
                                        assert(self.entries@.update(i as int, child_entry) =~= s.remove(i as int).insert(i as int, child_entry));
                                        lemma_leaves_insert_at(s.remove(i as int), i as int, child_entry);
                                        assert(entries_leaves(self.entries@.update(i as int, child_entry)) =~= p + l.remove(jc) + sfx);
                                        lemma_sorted_cut(o.leaves(), off, off + l.len());
                                        lemma_remove_in_middle(p, l, sfx, 0, l.len() as int);
                                        assert(l.take(0) + l.skip(l.len() as int) =~= Seq::<(K, V)>::empty());
                                        assert(p + Seq::<(K, V)>::empty() + sfx =~= p + sfx);
                                        assert forall|f: usize| #[trigger] o.within(f) implies self.within(f) && child_entry.within(f) by {
                                            lemma_within_node(o, f);
                                            lemma_within_entry(s[i as int], f);
                                            lemma_within_node(*node, f);
                                            lemma_within_entry(ce, f);
                                            lemma_within_update(s, i as int, ce, f);
                                            lemma_within_node(*self, f);
                                        }
                                    }
                                    return self.handle_removal_post_process(None, Some((i, child_entry, collapsed)), child_updated);
                                },
                            }
                        },
                        Entry::Leaf(k, v, pk) => {
                            proof {
                                assert(false);
                            }
                            self.entries.insert(i, Entry::Leaf(k, v, pk));
                        },
                    }
                }
            }
        }
        proof {
            lemma_node_same_as_itself(o);
        }
        self.handle_removal_post_process(None, None, child_updated)
    }
}

impl<K: HotKey, V> HOTNode<K, V> {
    /// Removes the node or leaf with id `target_id` (leaf ids as `leaf_id`
    /// gives them): entries are tried in order; a child with the id goes with
    /// its whole subtree, a leaf with the id goes alone, and otherwise the
    /// child is searched and decides the outcome when it finds the id.
    #[verifier::rlimit(60)]
    pub fn remove_by_id(&mut self, target_id: u64) -> (r: RemoveResult<K, V>)
        requires
            old(self).wf(),
        ensures
            r.shape() == old(self).remove_id(target_id).0,
            r is NotFound ==> kept(*old(self), *final(self)),
            !(r is NotFound) ==> {
                let t = old(self).remove_id(target_id);
                &&& 0 <= t.1 < t.2 <= old(self).leaves().len()
                &&& removal_outcome(*old(self), *final(self), r, old(self).leaves().take(t.1) + old(self).leaves().skip(t.2))
            },
            forall|f: usize| #[trigger] old(self).within(f) ==> r.removal_within(*final(self), f),
            // an id that is not found leaves the node as it was
            r is NotFound ==> final(self).same_as(*old(self)),
        decreases old(self).height,
    {
        let ghost o = *old(self);
        let ghost s = self.entries@;
        let ghost len = s.len() as int;
        let child_updated = false;
        let mask = self.mask.clone();
        proof {
            assert(mask@ =~= self.mask@);
        }
        let ghost mut off: int = 0;
        proof {
            assert(s.skip(0) =~= s);
            assert(s.take(0) =~= Seq::<Entry<K, V>>::empty());
            assert(entries_leaves(s.take(0)) =~= Seq::<(K, V)>::empty());
        }
        proof {
            lemma_node_same_as_itself(o);
        }
        let mut i: usize = 0;
        while i < self.entries.len()
            invariant
                o == *old(self),
                o.wf(),
                s == o.entries@,
                len == s.len(),
                self.wf(),
                self.id == o.id,
                self.height == o.height,
                self.mask@ == o.mask@,
                self.byte_offset == o.byte_offset,
                self.entries@.len() == s.len(),
                self.entries@.skip(i as int) == s.skip(i as int),
                entries_leaves(self.entries@.take(i as int)) == entries_leaves(s.take(i as int)),
                self.leaves() == o.leaves(),
                mask@ == o.mask@,
                i <= s.len(),
                off == entries_leaves(s.take(i as int)).len(),
                !child_updated,
                o.remove_id(target_id) == remove_id_in(s.skip(i as int), o.id, i as int, target_id, off, len),
                forall|f: usize| #[trigger] o.within(f) ==> self.within(f),
                self.same_as(o),
            decreases s.len() - i,
        {
            let ghost c = self.entries@;
            let ghost cur = *self;
            let ghost p = entries_leaves(s.take(i as int));
            let ghost sfx = entries_leaves(s.skip(i + 1));
            let ghost l = s[i as int].leaves();
            proof {
                assert(s.skip(i as int)[0] == s[i as int]);
                assert(c[i as int] == c.skip(i as int)[0]);
                assert(c[i as int] == s[i as int]);
                assert(s.skip(i as int).drop_first() =~= s.skip(i + 1));
                lemma_wf_entry(o, i as int);
                lemma_wf_entry(cur, i as int);
                lemma_entries_leaves_at(s, i as int);
                lemma_entries_leaves_at(c, i as int);
                assert(c.skip(i + 1) =~= s.skip(i + 1)) by {
                    assert(c.skip(i + 1) =~= c.skip(i as int).drop_first());
                }
                assert(o.leaves() == p + l + sfx);
                assert(cur.leaves() == p + l + sfx);
            }
            if self.entries[i].is_leaf() {
                if leaf_id(self.id, i) == target_id {
                    proof {
                        lemma_leaves_remove_at(c, i as int);
                        assert(l =~= seq![(s[i as int]->Leaf_0, s[i as int]->Leaf_1)]);
                        lemma_remove_in_middle(p, l, sfx, 0, 1);
                        assert(l.take(0) + l.skip(1) =~= Seq::<(K, V)>::empty());
                        assert(p + Seq::<(K, V)>::empty() + sfx =~= p + sfx);
                        lemma_sorted_cut(o.leaves(), off, off + 1);
                        assert(remove_id_in(s.skip(i as int), o.id, i as int, target_id, off, len) == (
                        removal_here(o.id, len), off, off + 1));
                    }
                    return self.handle_removal_post_process(Some(i), None, child_updated);
                }
            } else {
                let entry = self.entries.remove(i);
                match entry {
                    Entry::Child(rep, mut node, pk) => {
                        let ghost old_node = *node;
                        proof {
                            assert(c[i as int].child_ok(o.height));
                            assert(old_node.height < o.height);
                        }
                        if node.id == target_id {
                            let ghost ce = Entry::Child(rep, node, pk);
                            self.entries.insert(i, Entry::Child(rep, node, pk));
                            proof {
                                assert(self.entries@ =~= c);
                                lemma_leaves_remove_at(c, i as int);
                                lemma_remove_in_middle(p, l, sfx, 0, l.len() as int);
                                assert(l.take(0) + l.skip(l.len() as int) =~= Seq::<(K, V)>::empty());
                                assert(p + Seq::<(K, V)>::empty() + sfx =~= p + sfx);
                                lemma_sorted_cut(o.leaves(), off, off + l.len());
                                assert(remove_id_in(s.skip(i as int), o.id, i as int, target_id, off, len) == (
                                removal_here(o.id, len), off, off + l.len()));
                                assert forall|f: usize| #[trigger] o.within(f) implies self.within(f) by {
                                    assert(cur.within(f));
                                    lemma_within_node(cur, f);
                                    lemma_within_node(*self, f);
                                }
                            }
                            return self.handle_removal_post_process(Some(i), None, child_updated);
                        }
                        let res = node.remove_by_id(target_id);
                        let ghost tc = old_node.remove_id(target_id);
                        proof {
                            if !(res is NotFound) {
                                assert(remove_id_in(s.skip(i as int), o.id, i as int, target_id, off, len) == (
                                after_child_removal(tc.0, o.id, len), off + tc.1, off + tc.2));
                                lemma_remove_in_middle(p, l, sfx, tc.1, tc.2);
                                lemma_sorted_cut(o.leaves(), off + tc.1, off + tc.2);
                            }
                        }
                        match res {
                            RemoveResult::NotFound => {
                                let ghost new_entry = Entry::Child(rep, node, pk);
                                self.entries.insert(i, Entry::Child(rep, node, pk));
                                proof {
                                    assert(self.entries@ =~= c.remove(i as int).insert(i as int, new_entry));
                                    lemma_leaves_remove_at(c, i as int);
                                    lemma_leaves_insert_at(c.remove(i as int), i as int, new_entry);
                                    assert(self.leaves() =~= o.leaves());
                                    assert forall|j: int| 0 <= j < self.entries@.len() implies (#[trigger] self.entries@[j]).child_ok(self.height) by {
                                        if j != i {
                                            assert(self.entries@[j] == c[j]);
                                        }
                                    }
                                    lemma_wf_intro(*self);
                                    assert(self.entries@.skip(i + 1) =~= s.skip(i + 1));
                                    lemma_entries_leaves_at(self.entries@, i as int);
                                    assert(self.entries@.take(i + 1) =~= c.take(i as int).push(new_entry));
                                    assert(c.take(i as int).push(new_entry) =~= c.take(i as int) + seq![new_entry]);
                                    lemma_entries_leaves_concat(c.take(i as int), seq![new_entry]);
                                    lemma_entries_leaves_single(new_entry);
                                    assert(s.take(i + 1) =~= s.take(i as int) + seq![s[i as int]]);
                                    lemma_entries_leaves_concat(s.take(i as int), seq![s[i as int]]);
                                    lemma_entries_leaves_single(s[i as int]);
                                    assert(remove_id_in(s.skip(i as int), o.id, i as int, target_id, off, len) == remove_id_in(
                                        s.skip(i + 1), o.id, i + 1, target_id, off + l.len(), len));
                                    assert(self.entries@ =~= c.update(i as int, new_entry));
                                    assert forall|f: usize| #[trigger] o.within(f) implies self.within(f) by {
                                        assert(cur.within(f));
                                        lemma_within_node(cur, f);
                                        lemma_within_entry(c[i as int], f);
                                        lemma_within_entry(new_entry, f);
                                        lemma_within_update(c, i as int, new_entry, f);
                                        lemma_within_node(*self, f);
                                    }
                                    assert forall|j: int| 0 <= j < self.entries@.len() implies (#[trigger] self.entries@[j]).same_as(
                                        o.entries@[j],
                                    ) by {
                                        if j != i {
                                            assert(self.entries@[j] == c[j]);
                                            assert(cur.entries@[j].same_as(o.entries@[j]));
                                        }
                                    }
                                }
                            },
                            RemoveResult::Removed(ids) => {
                                proof {
                                    lemma_wf_first(*node);
                                }
                                let new_rep = node.entries[0].key().clone_key();
                                let offset: usize = if mask.len() > 0 { mask[0] / 8 } else { 0 };
                                let ghost new_entry;
                                if new_rep.compare_key(&rep) != KeyOrder::Equal {
                                    let new_pk = Self::extract_partial_key_static(mask.as_slice(), offset, &new_rep);
                                    proof {
                                        new_entry = Entry::Child(new_rep, node, new_pk);
                                    }
                                    self.entries.insert(i, Entry::Child(new_rep, node, new_pk));
                                } else {
                                    proof {
                                        new_entry = Entry::Child(rep, node, pk);
                                    }
                                    self.entries.insert(i, Entry::Child(rep, node, pk));
                                }
                                proof {
                                    assert(self.entries@ =~= c.remove(i as int).insert(i as int, new_entry));
                                    lemma_leaves_remove_at(c, i as int);
                                    lemma_leaves_insert_at(c.remove(i as int), i as int, new_entry);
                                    assert(self.leaves() =~= p + (l.take(tc.1) + l.skip(tc.2)) + sfx);
                                    assert forall|j: int| 0 <= j < self.entries@.len() implies (#[trigger] self.entries@[j]).child_ok(self.height) by {
                                        if j != i {
                                            assert(self.entries@[j] == c[j]);
                                        }
                                    }
                                    lemma_wf_intro(*self);
                                    assert(self.entries@ =~= c.update(i as int, new_entry));
                                    assert forall|f: usize| #[trigger] o.within(f) implies self.within(f) by {
                                        assert(cur.within(f));
                                        lemma_within_node(cur, f);
                                        lemma_within_entry(c[i as int], f);
                                        lemma_within_entry(new_entry, f);
                                        lemma_within_update(c, i as int, new_entry, f);
                                        lemma_within_node(*self, f);
                                    }
                                }
                                return RemoveResult::Removed(ids);
                            },
                            RemoveResult::Empty => {
                                let ghost ce = Entry::Child(rep, node, pk);
                                self.entries.insert(i, Entry::Child(rep, node, pk));
                                proof {
                                    assert(self.entries@ =~= c.update(i as int, ce));
                                    assert(self.entries@.remove(i as int) =~= c.remove(i as int));
                                    lemma_leaves_remove_at(c, i as int);
                                    assert(l.take(tc.1) + l.skip(tc.2) =~= Seq::<(K, V)>::empty());
                                    assert(p + Seq::<(K, V)>::empty() + sfx =~= p + sfx);
                                    assert forall|j: int| 0 <= j < self.entries@.len() && j != i implies (#[trigger] self.entries@[j]).child_ok(self.height) by {
                                        assert(self.entries@[j] == c[j]);
                                    }
                                    assert forall|f: usize| #[trigger] o.within(f) implies self.within(f) by {
                                        assert(cur.within(f));
                                        lemma_within_node(cur, f);
                                        lemma_within_node(*node, f);
                                        lemma_within_entry(ce, f);
                                        lemma_within_update(c, i as int, ce, f);
                                        lemma_within_node(*self, f);
                                    }
                                }
                                return self.handle_removal_post_process(Some(i), None, child_updated);
                            },
                            RemoveResult::Underflow(child_entry, collapsed) => {
                                let ghost ce = Entry::Child(rep, node, pk);
                                self.entries.insert(i, Entry::Child(rep, node, pk));
                                proof {
                                    assert(self.entries@ =~= c.update(i as int, ce));
                                    assert(self.entries@.remove(i as int) =~= c.remove(i as int));
                                    lemma_leaves_remove_at(c, i as int);
                                    assert(self.entries@.update(i as int, child_entry) =~= c.remove(i as int).insert(i as int, child_entry));
                                    lemma_leaves_insert_at(c.remove(i as int), i as int, child_entry);
                                    assert(entries_leaves(self.entries@.update(i as int, child_entry)) =~= p + (l.take(tc.1) + l.skip(tc.2)) + sfx);
                                    lemma_sorted_cut(o.leaves(), off, off + l.len());
                                    lemma_remove_in_middle(p, l, sfx, 0, l.len() as int);
                                    assert(l.take(0) + l.skip(l.len() as int) =~= Seq::<(K, V)>::empty());
                                    assert(p + Seq::<(K, V)>::empty() + sfx =~= p + sfx);
                                    assert forall|j: int| 0 <= j < self.entries@.len() && j != i implies (#[trigger] self.entries@[j]).child_ok(self.height) by {
                                        assert(self.entries@[j] == c[j]);
                                    }
                                    assert forall|f: usize| #[trigger] o.within(f) implies self.within(f) && child_entry.within(f) by {
                                        assert(cur.within(f));
                                        lemma_within_node(cur, f);
                                        lemma_within_entry(c[i as int], f);
                                        lemma_within_node(*node, f);
                                        lemma_within_entry(ce, f);
                                        lemma_within_update(c, i as int, ce, f);
                                        lemma_within_node(*self, f);
                                    }
                                }
                                return self.handle_removal_post_process(None, Some((i, child_entry, collapsed)), child_updated);
                            },
                        }
                    },
                    Entry::Leaf(k, v, pk) => {
                        proof {
                            assert(false);
                        }
                        self.entries.insert(i, Entry::Leaf(k, v, pk));
                    },
                }
            }
            proof {
                off = off + l.len();
                if c[i as int] is Leaf {
                    assert(self.entries@ == c);
                    assert(self.entries@.skip(i + 1) =~= s.skip(i + 1));
                    assert(c.take(i + 1) =~= c.take(i as int) + seq![c[i as int]]);
                    lemma_entries_leaves_concat(c.take(i as int), seq![c[i as int]]);
                    lemma_entries_leaves_single(c[i as int]);
                    assert(s.take(i + 1) =~= s.take(i as int) + seq![s[i as int]]);
                    lemma_entries_leaves_concat(s.take(i as int), seq![s[i as int]]);
                    lemma_entries_leaves_single(s[i as int]);
                }
            }
            i = i + 1;
        }
        proof {
            assert(s.skip(i as int) =~= Seq::<Entry<K, V>>::empty());
        }
        self.handle_removal_post_process(None, None, child_updated)
    }
}

/// A removal finds the key exactly when the node holds it.
pub proof fn lemma_remove_key_found<K: HotKey, V>(n: HOTNode<K, V>, key: K)
    requires
        n.wf(),
    ensures
        (n.remove_key(key).0 is NotFound) == !n@.contains_key(key.key_bytes()),
    decreases n,
{
    crate::trie::laws::lemma_slot_map(n, key);
    let t = key_slot(n.entries@, key.key_bytes());
    if 0 <= t < n.entries@.len() {
        if let Entry::Child(_, c, _) = n.entries@[t] {
            assert(n.entries@[t].child_ok(n.height));
            lemma_remove_key_found(*c, key);
        }
    }
}

} // verus!
