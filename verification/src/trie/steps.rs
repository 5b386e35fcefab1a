use vstd::prelude::*;
use crate::trie::entry::Entry;
use crate::trie::key::{HotKey, KeyOrder, bytes_lt};
use crate::trie::node::{HOTNode, spec_leaf_id, leaf_id};
use crate::trie::hot::HOT;
use crate::trie::lemmas::lemma_wf_entry;

verus! {

/// One step of an animated range scan.
#[derive(Debug, Clone)]
pub enum ScanStep<K> {
    /// Leaf ID, Key
    VisitLeaf(u64, K),
    /// Node ID, new index
    Advance(u64, usize),
    /// Node ID we arrived at
    Ascend(u64),
    /// Node ID we arrived at
    Descend(u64),
}

/// The step that moves to the entry at `next` of node `node_id`, when there is one.
pub open spec fn advance_step<K>(node_id: u64, next: int, len: int) -> Seq<ScanStep<K>> {
    if next < len {
        seq![ScanStep::Advance(node_id, next as usize)]
    } else {
        Seq::empty()
    }
}

/// The steps of a scan over the entries `s` of node `node_id` (with `len`
/// entries), the first at `idx`: it stops at an entry whose key is above
/// `end`; a leaf is visited, then the scan advances; a child is descended
/// into and scanned, and when it is done the scan ascends back and
/// advances. Returns the steps and whether the scan stopped.
pub open spec fn entries_steps<K: HotKey, V>(
    s: Seq<Entry<K, V>>,
    node_id: u64,
    idx: int,
    len: int,
    end: Seq<u8>,
) -> (Seq<ScanStep<K>>, bool)
    decreases s,
{
    if s.len() == 0 {
        (Seq::empty(), false)
    } else if bytes_lt(end, s[0].spec_key().key_bytes()) {
        (Seq::empty(), true)
    } else {
        let rest = entries_steps(s.drop_first(), node_id, idx + 1, len, end);
        match s[0] {
            Entry::Leaf(k, _, _) => (
                seq![ScanStep::VisitLeaf(spec_leaf_id(node_id, idx as usize), k)] + advance_step(node_id, idx + 1, len)
                    + rest.0,
                rest.1,
            ),
            Entry::Child(_, c, _) => {
                let sub = entries_steps(c.entries@, c.id, 0, c.entries@.len() as int, end);
                if sub.1 {
                    (seq![ScanStep::Descend(c.id)] + sub.0, true)
                } else {
                    (
                        seq![ScanStep::Descend(c.id)] + sub.0 + seq![ScanStep::Ascend(node_id)] + advance_step(
                            node_id,
                            idx + 1,
                            len,
                        ) + rest.0,
                        rest.1,
                    )
                }
            },
        }
    }
}

impl<K: HotKey, V> HOTNode<K, V> {
    /// Records the scan steps over the entries from `from` on; returns
    /// whether the scan stopped.
    fn scan_steps_from(&self, from: usize, end_key: &K, steps: &mut Vec<ScanStep<K>>) -> (stopped: bool)
        requires
            self.wf(),
            from <= self.entries@.len(),
        ensures
            ({
                let t = entries_steps(
                    self.entries@.skip(from as int),
                    self.id,
                    from as int,
                    self.entries@.len() as int,
                    end_key.key_bytes(),
                );
                final(steps)@ == old(steps)@ + t.0 && stopped == t.1
            }),
        decreases self.height,
    {
        let ghost s = self.entries@;
        let ghost len = s.len() as int;
        let ghost ek = end_key.key_bytes();
        let ghost t0 = entries_steps(s.skip(from as int), self.id, from as int, len, ek);
        let ghost mut acc: Seq<ScanStep<K>> = Seq::empty();
        let mut i: usize = from;
        proof {
            assert(old(steps)@ + acc =~= old(steps)@);
        }
        while i < self.entries.len()
            invariant
                s == self.entries@,
                len == s.len(),
                self.wf(),
                from <= i <= s.len(),
                ek == end_key.key_bytes(),
                t0 == entries_steps(s.skip(from as int), self.id, from as int, len, ek),
                steps@ == old(steps)@ + acc,
                t0 == ({
                    let t = entries_steps(s.skip(i as int), self.id, i as int, len, ek);
                    (acc + t.0, t.1)
                }),
            decreases s.len() - i,
        {
            proof {
                assert(s.skip(i as int)[0] == s[i as int]);
                assert(s.skip(i as int).drop_first() =~= s.skip(i + 1));
                lemma_wf_entry(*self, i as int);
                assert(s[i as int].child_ok(self.height));
            }
            let ghost rest = entries_steps(s.skip(i + 1), self.id, i + 1, len, ek);
            proof {
                crate::trie::key::lemma_bytes_lt_irreflexive(ek);
            }
            if end_key.compare_key(self.entries[i].key()) == KeyOrder::Less {
                proof {
                    assert(entries_steps(s.skip(i as int), self.id, i as int, len, ek).0 =~= Seq::<ScanStep<K>>::empty());
                    assert(steps@ =~= old(steps)@ + t0.0);
                }
                return true;
            }
            match &self.entries[i] {
                Entry::Leaf(k, _, _) => {
                    steps.push(ScanStep::VisitLeaf(leaf_id(self.id, i), k.clone_key()));
                    if i + 1 < self.entries.len() {
                        steps.push(ScanStep::Advance(self.id, i + 1));
                    }
                    proof {
                        let here = seq![ScanStep::VisitLeaf(spec_leaf_id(self.id, i as usize), *k)] + advance_step(
                            self.id,
                            i + 1,
                            len,
                        );
                        assert(entries_steps(s.skip(i as int), self.id, i as int, len, ek) == (here + rest.0, rest.1));
                        assert(steps@ =~= old(steps)@ + (acc + here));
                        assert(acc + here + rest.0 =~= acc + (here + rest.0));
                        acc = acc + here;
                    }
                },
                Entry::Child(_, child, _) => {
                    steps.push(ScanStep::Descend(child.id));
                    proof {
                        assert(child.entries@.skip(0) =~= child.entries@);
                    }
                    let stopped = child.scan_steps_from(0, end_key, steps);
                    let ghost sub = entries_steps(child.entries@, child.id, 0, child.entries@.len() as int, ek);
                    if stopped {
                        proof {
                            assert(entries_steps(s.skip(i as int), self.id, i as int, len, ek) == (
                            seq![ScanStep::Descend(child.id)] + sub.0, true));
                            assert(steps@ =~= old(steps)@ + t0.0);
                        }
                        return true;
                    }
                    steps.push(ScanStep::Ascend(self.id));
                    if i + 1 < self.entries.len() {
                        steps.push(ScanStep::Advance(self.id, i + 1));
                    }
                    proof {
                        let here = seq![ScanStep::Descend(child.id)] + sub.0 + seq![ScanStep::Ascend(self.id)] + advance_step(
                            self.id,
                            i + 1,
                            len,
                        );
                        assert(entries_steps(s.skip(i as int), self.id, i as int, len, ek) == (here + rest.0, rest.1));
                        assert(steps@ =~= old(steps)@ + (acc + here));
                        assert(acc + here + rest.0 =~= acc + (here + rest.0));
                        acc = acc + here;
                    }
                },
            }
            i = i + 1;
        }
        proof {
            assert(s.skip(i as int) =~= Seq::<Entry<K, V>>::empty());
            assert(acc + Seq::<ScanStep<K>>::empty() =~= acc);
        }
        false
    }

}

impl<K: HotKey, V> HOT<K, V> {
    /// The steps of an animated range scan up to `end_key`, the walk that
    /// `range_scan` makes: the leaves visited in key order from the first, the
    /// advances within nodes, and the descents and ascents between them, until
    /// a key above `end_key`. Keys below `start_key` are visited and skipped.
    pub fn range_scan_steps(&self, start_key: &K, end_key: &K) -> (steps: Vec<ScanStep<K>>)
        requires
            self.wf(),
        ensures
            match self.root {
                Some(r) => steps@ == entries_steps(
                    r.entries@,
                    r.id,
                    0,
                    r.entries@.len() as int,
                    end_key.key_bytes(),
                ).0,
                None => steps@ == Seq::<ScanStep<K>>::empty(),
            },
            // the steps walk the trie from the root's first entry: each visit
            // names the leaf at the current entry, each descent enters the
            // child there, each ascent arrives at the parent, and each advance
            // moves to the next entry
            self.root matches Some(r) ==> (r.within(self.fanout) ==> crate::trie::paths::walk_ok(
                r,
                seq![(r.id, 0int)],
                steps@,
            )),
            // the leaves visited are the trie's first ones in key order, up
            // to the first key above `end_key`
            self.root matches Some(r) ==> exists|p: int, stopped: bool|
                crate::trie::paths::scanned_up_to(r.leaves(), end_key.key_bytes(), p, stopped)
                    && #[trigger] crate::trie::paths::visited(steps@) == crate::trie::paths::keys_of(r.leaves().take(p)),
    {
        let mut steps: Vec<ScanStep<K>> = Vec::new();
        let root = match &self.root {
            Some(r) => r,
            None => return steps,
        };
        let _ = root.scan_steps_from(0, end_key, &mut steps);
        proof {
            if root.within(self.fanout) {
                crate::trie::paths::law_scan_steps_walk(*root, end_key.key_bytes(), self.fanout);
            }
            crate::trie::paths::law_scan_steps_visits(*root, end_key.key_bytes());
            assert(root.entries@.skip(0) =~= root.entries@);
            assert(steps@ =~= Seq::<ScanStep<K>>::empty() + entries_steps(
                root.entries@,
                root.id,
                0,
                root.entries@.len() as int,
                end_key.key_bytes(),
            ).0);
        }
        steps
    }
}

} // verus!
