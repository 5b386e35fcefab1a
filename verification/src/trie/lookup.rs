use vstd::prelude::*;
use crate::trie::entry::Entry;
use crate::trie::key::{HotKey, KeyOrder, bytes_lt, lemma_bytes_lt_irreflexive, lemma_bytes_lt_asymmetric};
use crate::trie::lemmas::lemma_wf_entries_ordered;
use crate::trie::laws::lemma_slot_map;
use crate::trie::node::{HOTNode, spec_leaf_id, leaf_id};
use crate::trie::hot::SearchStep;

verus! {

/// A search step as plain values: node id, partial key, mask, byte offset,
/// id of the matched entry.
pub type StepModel = (u64, u32, Seq<usize>, usize, Option<u64>);

/// The entry of `s` that a key with bytes `kb` descends into: the last one
/// whose representative key is not above it, or -1 when every one is.
pub open spec fn key_slot<K: HotKey, V>(s: Seq<Entry<K, V>>, kb: Seq<u8>) -> int
    decreases s.len(),
{
    if s.len() == 0 {
        -1
    } else if !bytes_lt(kb, s.last().spec_key().key_bytes()) {
        s.len() - 1
    } else {
        key_slot(s.drop_last(), kb)
    }
}

/// The slot lies within the entries or is -1; its key is not above `kb`, and
/// every later key is.
pub proof fn lemma_key_slot_range<K: HotKey, V>(s: Seq<Entry<K, V>>, kb: Seq<u8>)
    ensures
        -1 <= key_slot(s, kb) < s.len(),
        key_slot(s, kb) >= 0 ==> !bytes_lt(kb, s[key_slot(s, kb)].spec_key().key_bytes()),
        forall|j: int| key_slot(s, kb) < j < s.len() ==> bytes_lt(kb, (#[trigger] s[j]).spec_key().key_bytes()),
    decreases s.len(),
{
    if s.len() > 0 && bytes_lt(kb, s.last().spec_key().key_bytes()) {
        let t = s.drop_last();
        lemma_key_slot_range(t, kb);
        assert forall|j: int| key_slot(s, kb) < j < s.len() implies bytes_lt(kb, (#[trigger] s[j]).spec_key().key_bytes()) by {
            if j < s.len() - 1 {
                assert(t[j] == s[j]);
            }
        }
        if key_slot(s, kb) >= 0 {
            assert(t[key_slot(s, kb)] == s[key_slot(s, kb)]);
        }
    }
}

/// Entries with the same representative keys give the same slot.
pub proof fn lemma_key_slot_same_keys<K: HotKey, V>(a: Seq<Entry<K, V>>, b: Seq<Entry<K, V>>, kb: Seq<u8>)
    requires
        a.len() == b.len(),
        forall|i: int| 0 <= i < a.len() ==> (#[trigger] a[i]).spec_key() == b[i].spec_key(),
    ensures
        key_slot(a, kb) == key_slot(b, kb),
    decreases a.len(),
{
    if a.len() > 0 {
        assert(a.last().spec_key() == b.last().spec_key());
        assert forall|i: int| 0 <= i < a.drop_last().len() implies (#[trigger] a.drop_last()[i]).spec_key()
            == b.drop_last()[i].spec_key() by {
            assert(a.drop_last()[i] == a[i] && b.drop_last()[i] == b[i]);
        }
        lemma_key_slot_same_keys(a.drop_last(), b.drop_last(), kb);
    }
}

/// The slot is `i` when entry `i`'s key is not above `kb` and every later one is.
pub proof fn lemma_key_slot<K: HotKey, V>(s: Seq<Entry<K, V>>, kb: Seq<u8>, i: int)
    requires
        -1 <= i < s.len(),
        i >= 0 ==> !bytes_lt(kb, s[i].spec_key().key_bytes()),
        forall|j: int| i < j < s.len() ==> bytes_lt(kb, (#[trigger] s[j]).spec_key().key_bytes()),
    ensures
        key_slot(s, kb) == i,
    decreases s.len(),
{
    if s.len() > 0 && i < s.len() - 1 {
        assert(bytes_lt(kb, s[s.len() - 1].spec_key().key_bytes()));
        assert forall|j: int| i < j < s.drop_last().len() implies bytes_lt(kb, (#[trigger] s.drop_last()[j]).spec_key().key_bytes()) by {
            assert(s.drop_last()[j] == s[j]);
        }
        if i >= 0 {
            assert(s.drop_last()[i] == s[i]);
        }
        lemma_key_slot(s.drop_last(), kb, i);
    }
}

/// The trace of a search across the entries `s`, the first of which sits at
/// `idx` in node `node_id`: the first entry whose partial key is `pk` is
/// followed, whatever its key. Returns the edges taken, the steps recorded,
/// the nodes visited below, the id of the leaf reached and whether its key
/// is the one searched.
pub open spec fn search_trace_in<K: HotKey, V>(
    s: Seq<Entry<K, V>>,
    node_id: u64,
    idx: int,
    pk: u32,
    key: K,
) -> (Option<u64>, Seq<u64>, Seq<(u64, u64)>, Seq<StepModel>, Option<u64>, bool)
    decreases s,
{
    if s.len() == 0 {
        (None, Seq::empty(), Seq::empty(), Seq::empty(), None, false)
    } else if s[0].spec_partial_key() == pk {
        match s[0] {
            Entry::Leaf(k, _, _) => {
                let lid = spec_leaf_id(node_id, idx as usize);
                (Some(lid), Seq::empty(), seq![(node_id, lid)], Seq::empty(), Some(lid), k.key_bytes() == key.key_bytes())
            },
            Entry::Child(_, n, _) => {
                let t = n.search_trace(key);
                (Some(n.id), t.0, seq![(node_id, n.id)] + t.1, t.2, t.3, t.4)
            },
        }
    } else {
        search_trace_in(s.drop_first(), node_id, idx + 1, pk, key)
    }
}

impl<K: HotKey, V> HOTNode<K, V> {
    /// The ids a lookup of `key` records: this node's, then, down the entry
    /// it descends into, those of the nodes below and of the leaf holding the key.
    pub open spec fn lookup_path(self, key: K) -> Seq<u64>
        decreases self,
    {
        let t = key_slot(self.entries@, key.key_bytes());
        if 0 <= t < self.entries@.len() {
            match self.entries@[t] {
                Entry::Leaf(k, _, _) => if k.key_bytes() == key.key_bytes() {
                    seq![self.id, spec_leaf_id(self.id, t as usize)]
                } else {
                    seq![self.id]
                },
                Entry::Child(_, n, _) => seq![self.id] + n.lookup_path(key),
            }
        } else {
            seq![self.id]
        }
    }

    /// The trace of a search for `key` from this node: the nodes visited, the
    /// edges taken, for each node with entries the id of the entry matched
    /// (if any) in a recorded step, the leaf reached and whether it matches.
    pub open spec fn search_trace(self, key: K) -> (Seq<u64>, Seq<(u64, u64)>, Seq<StepModel>, Option<u64>, bool)
        decreases self,
    {
        if self.entries@.len() == 0 {
            (seq![self.id], Seq::empty(), Seq::empty(), None, false)
        } else {
            let pk = self.spec_extract(key);
            let t = search_trace_in(self.entries@, self.id, 0, pk, key);
            let step = (self.id, pk, self.mask@, self.byte_offset, t.0);
            (seq![self.id] + t.1, t.2, seq![step] + t.3, t.4, t.5)
        }
    }
}

/// The plain values of recorded search steps.
pub open spec fn steps_model(s: Seq<SearchStep>) -> Seq<StepModel> {
    s.map_values(|x: SearchStep| x.model())
}

impl<K: HotKey, V> HOTNode<K, V> {
    /// Performs a lookup for the given key in the HOT subtree: the value the
    /// subtree maps the key to, if any.
    pub fn lookup(&self, key: &K) -> (r: Option<&V>)
        requires
            self.wf(),
        ensures
            match r {
                Some(v) => self@.contains_key(key.key_bytes()) && *v == self@[key.key_bytes()],
                None => !self@.contains_key(key.key_bytes()),
            },
    {
        self.lookup_recursive(key)
    }

    /// Descends by representative keys to the entry that may hold `key`.
    fn lookup_recursive(&self, key: &K) -> (r: Option<&V>)
        requires
            self.wf(),
        ensures
            match r {
                Some(v) => self@.contains_key(key.key_bytes()) && *v == self@[key.key_bytes()],
                None => !self@.contains_key(key.key_bytes()),
            },
        decreases self,
    {
        let slot = self.find_slot(key);
        proof {
            lemma_slot_map(*self, *key);
        }
        match slot {
            None => None,
            Some(t) => match &self.entries[t] {
                Entry::Leaf(k, v, _) => {
                    if k.compare_key(key) == KeyOrder::Equal {
                        Some(v)
                    } else {
                        None
                    }
                },
                Entry::Child(_, node, _) => {
                    proof {
                        assert(self.entries@[t as int].child_ok(self.height));
                    }
                    node.lookup_recursive(key)
                },
            },
        }
    }

    /// The slot of `key` among the entries, found by binary search.
    pub(crate) fn find_slot(&self, key: &K) -> (r: Option<usize>)
        requires
            self.wf(),
        ensures
            match r {
                Some(t) => t == key_slot(self.entries@, key.key_bytes()) && t < self.entries@.len(),
                None => key_slot(self.entries@, key.key_bytes()) == -1,
            },
    {
        let ghost s = self.entries@;
        let ghost kb = key.key_bytes();
        let found = self.find_entry(key);
        proof {
            lemma_bytes_lt_irreflexive(kb);
        }
        match found {
            Ok(i) => {
                proof {
                    assert forall|j: int| i < j < s.len() implies bytes_lt(kb, (#[trigger] s[j]).spec_key().key_bytes()) by {
                        lemma_wf_entries_ordered(*self, i as int, j);
                    }
                    lemma_key_slot(s, kb, i as int);
                }
                Some(i)
            },
            Err(i) => {
                proof {
                    if i > 0 {
                        lemma_bytes_lt_asymmetric(s[i - 1].spec_key().key_bytes(), kb);
                    }
                    lemma_key_slot(s, kb, i - 1);
                }
                if i == 0 {
                    None
                } else {
                    Some(i - 1)
                }
            },
        }
    }

    /// Performs a lookup and records the path of nodes visited.
    pub fn lookup_with_path(&self, key: &K, path: &mut Vec<u64>) -> (r: Option<&V>)
        requires
            self.wf(),
        ensures
            final(path)@ == old(path)@ + self.lookup_path(*key),
            match r {
                Some(v) => self@.contains_key(key.key_bytes()) && *v == self@[key.key_bytes()],
                None => !self@.contains_key(key.key_bytes()),
            },
        decreases self,
    {
        path.push(self.id);
        let slot = self.find_slot(key);
        proof {
            lemma_slot_map(*self, *key);
        }
        match slot {
            None => None,
            Some(t) => match &self.entries[t] {
                Entry::Leaf(k, v, _) => {
                    if k.compare_key(key) == KeyOrder::Equal {
                        path.push(leaf_id(self.id, t));
                        Some(v)
                    } else {
                        None
                    }
                },
                Entry::Child(_, node, _) => {
                    proof {
                        assert(self.entries@[t as int].child_ok(self.height));
                    }
                    let ghost mid = path@;
                    let r = node.lookup_with_path(key, path);
                    proof {
                        assert(path@ =~= old(path)@ + self.lookup_path(*key));
                    }
                    r
                },
            },
        }
    }

    /// Performs a full search following the HOT algorithm, recording the
    /// nodes visited, the edges taken and a step for each node evaluated.
    /// Returns the id of the leaf reached and whether its key is the one searched.
    pub fn search(
        &self,
        key: &K,
        path: &mut Vec<u64>,
        edges: &mut Vec<(u64, u64)>,
        steps: &mut Vec<SearchStep>,
    ) -> (r: (Option<u64>, bool))
        requires
            self.wf(),
        ensures
            final(path)@ == old(path)@ + self.search_trace(*key).0,
            final(edges)@ == old(edges)@ + self.search_trace(*key).1,
            steps_model(final(steps)@) == steps_model(old(steps)@) + self.search_trace(*key).2,
            r == (self.search_trace(*key).3, self.search_trace(*key).4),
        decreases self,
    {
        path.push(self.id);
        if self.entries.len() == 0 {
            proof {
                assert(steps_model(steps@) =~= steps_model(old(steps)@) + Seq::<StepModel>::empty());
            }
            return (None, false);
        }
        let search_pk = self.extract_partial_key(key);
        let mask = self.mask.clone();
        proof {
            assert(mask@ =~= self.mask@);
        }
        let mut step = SearchStep {
            node_id: self.id,
            partial_key: search_pk,
            mask,
            byte_offset: self.byte_offset,
            matched_entry_id: None,
        };
        let ghost s = self.entries@;
        assert(s.skip(0) =~= s);
        let mut i: usize = 0;
        while i < self.entries.len()
            invariant
                s == self.entries@,
                self.wf(),
                i <= s.len(),
                search_pk == self.spec_extract(*key),
                step.model() == (self.id, search_pk, self.mask@, self.byte_offset, None::<u64>),
                path@ == old(path)@ + seq![self.id],
                edges == old(edges),
                steps == old(steps),
                search_trace_in(s, self.id, 0, search_pk, *key) == search_trace_in(
                    s.skip(i as int),
                    self.id,
                    i as int,
                    search_pk,
                    *key,
                ),
            decreases s.len() - i,
        {
            let entry = &self.entries[i];
            proof {
                assert(s.skip(i as int)[0] == s[i as int]);
                assert(s.skip(i as int).drop_first() =~= s.skip(i + 1));
                assert(s[i as int].child_ok(self.height));
            }
            if entry.partial_key() == search_pk {
                match entry {
                    Entry::Leaf(k, _, _) => {
                        let lid = leaf_id(self.id, i);
                        step.matched_entry_id = Some(lid);
                        steps.push(step);
                        edges.push((self.id, lid));
                        let is_match = k.compare_key(key) == KeyOrder::Equal;
                        proof {
                            assert(steps_model(steps@) =~= steps_model(old(steps)@) + self.search_trace(*key).2);
                            assert(path@ =~= old(path)@ + self.search_trace(*key).0);
                        }
                        return (Some(lid), is_match);
                    },
                    Entry::Child(_, node, _) => {
                        step.matched_entry_id = Some(node.id);
                        steps.push(step);
                        edges.push((self.id, node.id));
                        let ghost mid_steps = steps@;
                        let ghost mid_path = path@;
                        let ghost mid_edges = edges@;
                        let r = node.search(key, path, edges, steps);
                        proof {
                            assert(steps_model(mid_steps) =~= steps_model(old(steps)@) + seq![
                                (self.id, search_pk, self.mask@, self.byte_offset, Some(node.id)),
                            ]);
                            assert(steps_model(steps@) =~= steps_model(old(steps)@) + self.search_trace(*key).2);
                            assert(path@ =~= old(path)@ + self.search_trace(*key).0);
                            assert(edges@ =~= old(edges)@ + self.search_trace(*key).1);
                        }
                        return r;
                    },
                }
            }
            i = i + 1;
        }
        steps.push(step);
        proof {
            assert(steps_model(steps@) =~= steps_model(old(steps)@) + self.search_trace(*key).2);
            assert(path@ =~= old(path)@ + self.search_trace(*key).0);
            assert(edges@ =~= old(edges)@ + self.search_trace(*key).1);
        }
        (None, false)
    }
}

} // verus!
