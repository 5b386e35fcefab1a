use vstd::prelude::*;
use crate::trie::entry::Entry;
use crate::trie::key::{HotKey, KeyOrder, bytes_lt};
use crate::trie::node::{HOTNode, entries_leaves, sorted_leaves};
use crate::trie::lemmas::{lemma_entries_leaves_concat, lemma_entries_leaves_single, lemma_entries_leaves_at, lemma_wf_entry};

verus! {

/// The keys of `s`, in order, that a scan collects: it stops at the first
/// key above `end` and keeps the keys that are not below `start`.
pub open spec fn collect_range<K: HotKey, V>(s: Seq<(K, V)>, start: Seq<u8>, end: Seq<u8>) -> Seq<K>
    decreases s.len(),
{
    if s.len() == 0 {
        Seq::empty()
    } else if bytes_lt(end, s[0].0.key_bytes()) {
        Seq::empty()
    } else {
        let rest = collect_range(s.drop_first(), start, end);
        if bytes_lt(s[0].0.key_bytes(), start) {
            rest
        } else {
            seq![s[0].0] + rest
        }
    }
}

/// Some key of `s` lies above `end`.
pub open spec fn passes_end<K: HotKey, V>(s: Seq<(K, V)>, end: Seq<u8>) -> bool {
    exists|j: int| 0 <= j < s.len() && bytes_lt(end, (#[trigger] s[j]).0.key_bytes())
}

/// Collecting over a concatenation: the second part counts only when the
/// first has no key above the end.
pub proof fn lemma_collect_concat<K: HotKey, V>(a: Seq<(K, V)>, b: Seq<(K, V)>, start: Seq<u8>, end: Seq<u8>)
    ensures
        collect_range(a + b, start, end) == if passes_end(a, end) {
            collect_range(a, start, end)
        } else {
            collect_range(a, start, end) + collect_range(b, start, end)
        },
        passes_end(a + b, end) == (passes_end(a, end) || passes_end(b, end)),
    decreases a.len(),
{
    if a.len() == 0 {
        assert(a + b =~= b);
        assert(collect_range(a, start, end) + collect_range(b, start, end) =~= collect_range(b, start, end));
    } else {
        lemma_collect_concat(a.drop_first(), b, start, end);
        assert((a + b).drop_first() =~= a.drop_first() + b);
        assert((a + b)[0] == a[0]);
        if passes_end(a.drop_first(), end) {
            let j = choose|j: int| 0 <= j < a.drop_first().len() && bytes_lt(end, (#[trigger] a.drop_first()[j]).0.key_bytes());
            assert(a[j + 1] == a.drop_first()[j]);
        }
        if passes_end(a, end) && !bytes_lt(end, a[0].0.key_bytes()) {
            let j = choose|j: int| 0 <= j < a.len() && bytes_lt(end, (#[trigger] a[j]).0.key_bytes());
            assert(a.drop_first()[j - 1] == a[j]);
        }
        if !passes_end(a, end) {
            assert(!bytes_lt(end, a[0].0.key_bytes()));
        }
        assert forall|j: int| 0 <= j < (a + b).len() && bytes_lt(end, (#[trigger] (a + b)[j]).0.key_bytes()) implies
            passes_end(a, end) || passes_end(b, end) by {
            if j < a.len() {
                assert((a + b)[j] == a[j]);
            } else {
                assert((a + b)[j] == b[j - a.len()]);
            }
        }
        if passes_end(a, end) {
            let j = choose|j: int| 0 <= j < a.len() && bytes_lt(end, (#[trigger] a[j]).0.key_bytes());
            assert((a + b)[j] == a[j]);
        }
        if passes_end(b, end) {
            let j = choose|j: int| 0 <= j < b.len() && bytes_lt(end, (#[trigger] b[j]).0.key_bytes());
            assert((a + b)[a.len() + j] == b[j]);
        }
        if !bytes_lt(end, a[0].0.key_bytes()) && !passes_end(a, end) {
            assert(seq![a[0].0] + collect_range(a.drop_first(), start, end) + collect_range(b, start, end)
                =~= seq![a[0].0] + (collect_range(a.drop_first(), start, end) + collect_range(b, start, end)));
        }
    }
}

/// A key above the end in the entry's leaves is its first one when its
/// representative is; a collection over the entry then gives nothing.
pub proof fn lemma_entry_passes<K: HotKey, V>(n: HOTNode<K, V>, i: int, start: Seq<u8>, end: Seq<u8>)
    requires
        n.wf(),
        0 <= i < n.entries@.len(),
        bytes_lt(end, n.entries@[i].spec_key().key_bytes()),
    ensures
        passes_end(n.entries@[i].leaves(), end),
        collect_range(n.entries@[i].leaves(), start, end) == Seq::<K>::empty(),
{
    lemma_wf_entry(n, i);
    let l = n.entries@[i].leaves();
    assert(bytes_lt(end, l[0].0.key_bytes()));
}

impl<K: HotKey, V> HOTNode<K, V> {
    /// Visits the entries from `from` on in order, collecting the leaf keys
    /// not below `start_key`, until an entry's key lies above `end_key`;
    /// returns whether it stopped there.
    pub(crate) fn scan_from(&self, from: usize, start_key: &K, end_key: &K, results: &mut Vec<K>) -> (stopped: bool)
        requires
            self.wf(),
            from <= self.entries@.len(),
        ensures
            final(results)@ == old(results)@ + collect_range(
                entries_leaves(self.entries@.skip(from as int)),
                start_key.key_bytes(),
                end_key.key_bytes(),
            ),
            stopped == passes_end(entries_leaves(self.entries@.skip(from as int)), end_key.key_bytes()),
        decreases self.height,
    {
        let ghost s = self.entries@;
        let ghost sk = start_key.key_bytes();
        let ghost ek = end_key.key_bytes();
        let mut i: usize = from;
        proof {
            assert(s.subrange(from as int, from as int) =~= Seq::<Entry<K, V>>::empty());
            assert(entries_leaves(s.subrange(from as int, from as int)) =~= Seq::<(K, V)>::empty());
            assert(old(results)@ + Seq::<K>::empty() =~= old(results)@);
        }
        while i < self.entries.len()
            invariant
                s == self.entries@,
                self.wf(),
                from <= i <= s.len(),
                sk == start_key.key_bytes(),
                ek == end_key.key_bytes(),
                results@ == old(results)@ + collect_range(entries_leaves(s.subrange(from as int, i as int)), sk, ek),
                !passes_end(entries_leaves(s.subrange(from as int, i as int)), ek),
            decreases s.len() - i,
        {
            let ghost pre = entries_leaves(s.subrange(from as int, i as int));
            let ghost l = s[i as int].leaves();
            let ghost post = entries_leaves(s.skip(i + 1));
            proof {
                assert(s.skip(from as int) =~= s.subrange(from as int, i as int) + (seq![s[i as int]] + s.skip(i + 1)));
                lemma_entries_leaves_concat(s.subrange(from as int, i as int), seq![s[i as int]] + s.skip(i + 1));
                lemma_entries_leaves_concat(seq![s[i as int]], s.skip(i + 1));
                lemma_entries_leaves_single(s[i as int]);
                assert(s.subrange(from as int, i + 1) =~= s.subrange(from as int, i as int) + seq![s[i as int]]);
                lemma_entries_leaves_concat(s.subrange(from as int, i as int), seq![s[i as int]]);
                lemma_collect_concat(pre, l + post, sk, ek);
                lemma_collect_concat(l, post, sk, ek);
                lemma_collect_concat(pre, l, sk, ek);
                assert(entries_leaves(s.skip(from as int)) =~= pre + (l + post));
                lemma_wf_entry(*self, i as int);
                assert(s[i as int].child_ok(self.height));
            }
            if end_key.compare_key(self.entries[i].key()) == KeyOrder::Less {
                proof {
                    lemma_entry_passes(*self, i as int, sk, ek);
                    assert(results@ + Seq::<K>::empty() =~= results@);
                }
                return true;
            }
            match &self.entries[i] {
                Entry::Leaf(k, _, _) => {
                    proof {
                        assert(l =~= seq![(*k, s[i as int]->Leaf_1)]);
                        assert(l.drop_first() =~= Seq::<(K, V)>::empty());
                        crate::trie::key::lemma_bytes_lt_irreflexive(ek);
                        assert(!bytes_lt(ek, k.key_bytes()));
                        assert(l[0].0 == *k);
                        assert(collect_range(l.drop_first(), sk, ek) =~= Seq::<K>::empty());
                        assert(!passes_end(l, ek));
                    }
                    if k.compare_key(start_key) != KeyOrder::Less {
                        results.push(k.clone_key());
                        proof {
                            crate::trie::key::lemma_bytes_lt_irreflexive(sk);
                            assert(!bytes_lt(k.key_bytes(), sk));
                            assert(seq![l[0].0] + Seq::<K>::empty() =~= seq![*k]);
                            assert(collect_range(l, sk, ek) =~= seq![*k]);
                        }
                    } else {
                        proof {
                            assert(collect_range(l, sk, ek) =~= Seq::<K>::empty());
                        }
                    }
                    proof {
                        assert(results@ =~= old(results)@ + collect_range(entries_leaves(s.subrange(from as int, i + 1)), sk, ek));
                    }
                },
                Entry::Child(_, child, _) => {
                    proof {
                        assert(child.entries@.skip(0) =~= child.entries@);
                    }
                    let stopped = child.scan_from(0, start_key, end_key, results);
                    if stopped {
                        proof {
                            assert(results@ =~= old(results)@ + collect_range(entries_leaves(s.skip(from as int)), sk, ek));
                        }
                        return true;
                    }
                    proof {
                        assert(results@ =~= old(results)@ + collect_range(entries_leaves(s.subrange(from as int, i + 1)), sk, ek));
                    }
                },
            }
            i = i + 1;
        }
        proof {
            assert(s.subrange(from as int, i as int) =~= s.skip(from as int));
        }
        false
    }

}

} // verus!
