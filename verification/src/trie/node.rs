use vstd::prelude::*;
use crate::trie::entry::Entry;
use crate::trie::key::{HotKey, bytes_lt, max_key_bytes};
use crate::trie::bits::{pext, pext_spec, window_mask, build_window_mask};

verus! {

/// A node in the Height Optimized Trie.
#[verifier::reject_recursive_types(K)]
#[verifier::reject_recursive_types(V)]
#[derive(Debug)]
pub struct HOTNode<K, V> {
    /// Unique ID for this node.
    pub id: u64,
    /// The height of the node in the trie.
    pub height: u16,
    /// The entries stored in this node.
    pub entries: Vec<Entry<K, V>>,
    /// The bit-positions that distinguish the keys in this node.
    pub mask: Vec<usize>,
    /// The byte offset for the 8-byte chunk used for partial key extraction.
    pub byte_offset: usize,
}

impl<K, V> Entry<K, V> {
    /// The key-value pairs below this entry, in order.
    pub open spec fn leaves(self) -> Seq<(K, V)>
        decreases self,
    {
        match self {
            Entry::Leaf(k, v, _) => seq![(k, v)],
            Entry::Child(_, n, _) => entries_leaves(n.entries@),
        }
    }
}

/// The key-value pairs below a sequence of entries, in order.
pub open spec fn entries_leaves<K, V>(s: Seq<Entry<K, V>>) -> Seq<(K, V)>
    decreases s,
{
    if s.len() == 0 {
        Seq::empty()
    } else {
        entries_leaves(s.drop_last()) + s.last().leaves()
    }
}

impl<K, V> HOTNode<K, V> {
    /// The key-value pairs stored in the subtree, in order.
    pub open spec fn leaves(self) -> Seq<(K, V)> {
        entries_leaves(self.entries@)
    }
}

/// The map from key bytes to values that a sequence of key-value pairs
/// holds, later pairs taking precedence.
pub open spec fn leaves_map<K: HotKey, V>(s: Seq<(K, V)>) -> Map<Seq<u8>, V>
    decreases s.len(),
{
    if s.len() == 0 {
        Map::empty()
    } else {
        leaves_map(s.drop_last()).insert(s.last().0.key_bytes(), s.last().1)
    }
}

impl<K: HotKey, V> View for HOTNode<K, V> {
    type V = Map<Seq<u8>, V>;

    /// The subtree as a map from key bytes to values.
    open spec fn view(&self) -> Map<Seq<u8>, V> {
        leaves_map(self.leaves())
    }
}

/// Key-value pairs whose keys strictly increase.
pub open spec fn sorted_leaves<K: HotKey, V>(s: Seq<(K, V)>) -> bool {
    forall|i: int, j: int|
        #![trigger s[i], s[j]]
        0 <= i < j < s.len() ==> bytes_lt(s[i].0.key_bytes(), s[j].0.key_bytes())
}

/// Every key is short enough for its bit positions to fit in a `usize`.
pub open spec fn keys_fit<K: HotKey, V>(s: Seq<(K, V)>) -> bool {
    forall|i: int| 0 <= i < s.len() ==> (#[trigger] s[i]).0.key_bytes().len() <= max_key_bytes()
}

/// Every key of `a` is below every key of `b`.
pub open spec fn all_below<K: HotKey, V>(a: Seq<(K, V)>, b: Seq<(K, V)>) -> bool {
    forall|i: int, j: int|
        #![trigger a[i], b[j]]
        0 <= i < a.len() && 0 <= j < b.len() ==> bytes_lt(a[i].0.key_bytes(), b[j].0.key_bytes())
}

/// Strictly increasing bit positions.
pub open spec fn strictly_increasing(s: Seq<usize>) -> bool {
    forall|i: int, j: int| #![trigger s[i], s[j]] 0 <= i < j < s.len() ==> s[i] < s[j]
}

impl<K: HotKey, V> Entry<K, V> {
    /// A child entry holds a well-formed, non-empty node whose first key is
    /// the entry's representative key.
    pub open spec fn sound(self) -> bool
        decreases self, 0int,
    {
        match self {
            Entry::Leaf(_, _, _) => true,
            Entry::Child(rep, n, _) => {
                &&& n.entries@.len() > 0
                &&& n.wf()
                &&& entries_leaves(n.entries@).len() > 0
                &&& rep.key_bytes() == entries_leaves(n.entries@)[0].0.key_bytes()
            },
        }
    }

    /// A sound entry whose node, if any, is lower than `height`.
    pub open spec fn child_ok(self, height: u16) -> bool
        decreases self, 1int,
    {
        &&& self.sound()
        &&& (self matches Entry::Child(_, n, _) ==> n.height < height)
    }
}

impl<K: HotKey, V> HOTNode<K, V> {
    /// The node's structural invariant: keys strictly increase along the
    /// leaves, every key fits, masks are sorted sets of bit positions, the
    /// partial-key window lies within `usize` bit positions, and every child
    /// is lower, non-empty, well formed and represented by its first key.
    pub open spec fn wf(self) -> bool
        decreases self, 0int,
    {
        &&& self.byte_offset <= usize::MAX / 8
        &&& strictly_increasing(self.mask@)
        &&& sorted_leaves(entries_leaves(self.entries@))
        &&& keys_fit(entries_leaves(self.entries@))
        &&& forall|i: int| 0 <= i < self.entries@.len() ==> (#[trigger] self.entries@[i]).child_ok(self.height)
    }
}

impl<K, V> Entry<K, V> {
    /// A leaf, or a child whose node and every node below it hold at most
    /// `fanout` entries.
    pub open spec fn within(self, fanout: usize) -> bool
        decreases self,
    {
        match self {
            Entry::Leaf(_, _, _) => true,
            Entry::Child(_, n, _) => n.within(fanout),
        }
    }
}

impl<K, V> HOTNode<K, V> {
    /// The node and every node below it hold at most `fanout` entries.
    pub open spec fn within(self, fanout: usize) -> bool
        decreases self,
    {
        &&& self.entries@.len() <= fanout
        &&& forall|i: int| 0 <= i < self.entries@.len() ==> (#[trigger] self.entries@[i]).within(fanout)
    }
}

impl<K, V> Entry<K, V> {
    /// The same entry: equal keys, values and partial keys, and child nodes
    /// that are the same.
    pub open spec fn same_as(self, other: Self) -> bool
        decreases self,
    {
        match self {
            Entry::Leaf(k, v, p) => other == Entry::<K, V>::Leaf(k, v, p),
            Entry::Child(k, n, p) => match other {
                Entry::Child(k2, n2, p2) => k == k2 && p == p2 && n.same_as(*n2),
                Entry::Leaf(_, _, _) => false,
            },
        }
    }
}

impl<K, V> HOTNode<K, V> {
    /// The same node: equal id, height, mask, byte offset and number of
    /// entries, and the same entry at each position.
    pub open spec fn same_as(self, other: Self) -> bool
        decreases self,
    {
        &&& self.id == other.id
        &&& self.height == other.height
        &&& self.mask@ == other.mask@
        &&& self.byte_offset == other.byte_offset
        &&& self.entries@.len() == other.entries@.len()
        &&& forall|i: int| 0 <= i < self.entries@.len() ==> (#[trigger] self.entries@[i]).same_as(other.entries@[i])
    }
}

impl<K: HotKey, V> Entry<K, V> {
    /// A leaf, or a child whose node holds consistent partial keys.
    pub open spec fn keys_ok(self) -> bool
        decreases self,
    {
        match self {
            Entry::Leaf(_, _, _) => true,
            Entry::Child(_, n, _) => n.partial_keys_ok(),
        }
    }
}

impl<K: HotKey, V> HOTNode<K, V> {
    /// Every entry's partial key is the one its key has under the node's mask
    /// and byte offset, here and in every node below; an empty node has an
    /// empty mask.
    pub open spec fn partial_keys_ok(self) -> bool
        decreases self,
    {
        &&& self.entries@.len() == 0 ==> self.mask@.len() == 0
        &&& forall|i: int|
            0 <= i < self.entries@.len() ==> (#[trigger] self.entries@[i]).spec_partial_key() == partial_key_spec(
                self.mask@,
                self.byte_offset,
                self.entries@[i].spec_key(),
            ) && self.entries@[i].keys_ok()
    }
}

/// Every child below the entries of `s` holds consistent partial keys.
pub open spec fn entries_keys_ok<K: HotKey, V>(s: Seq<Entry<K, V>>) -> bool {
    forall|i: int| 0 <= i < s.len() ==> (#[trigger] s[i]).keys_ok()
}

/// Every entry of `s` is a leaf.
pub open spec fn all_leaves<K, V>(s: Seq<Entry<K, V>>) -> bool {
    forall|i: int| 0 <= i < s.len() ==> (#[trigger] s[i]) is Leaf
}

/// Every entry of `s` keeps the nodes below it within `fanout` entries.
pub open spec fn entries_within<K, V>(s: Seq<Entry<K, V>>, fanout: usize) -> bool {
    forall|i: int| 0 <= i < s.len() ==> (#[trigger] s[i]).within(fanout)
}

/// The partial key of `key` under the sorted bit positions `mask_bits` read
/// in the 64-bit window at `byte_offset`; an empty mask gives zero.
pub open spec fn partial_key_spec<K: HotKey>(mask_bits: Seq<usize>, byte_offset: usize, key: K) -> u32 {
    if mask_bits.len() == 0 {
        0
    } else {
        pext_spec(key.spec_u64_at(byte_offset), window_mask(mask_bits, byte_offset)) as u32
    }
}

/// The first differing bits of adjacent representative keys.
pub open spec fn adjacent_diff_bits<K: HotKey, V>(s: Seq<Entry<K, V>>) -> Set<usize> {
    Set::new(
        |p: usize|
            exists|i: int|
                0 <= i < s.len() - 1 && #[trigger] s[i].spec_key().spec_first_differing_bit(
                    &s[i + 1].spec_key(),
                ) == Some(p),
    )
}

/// The byte offset a node reads partial keys from: that of its first mask bit.
pub open spec fn offset_for(mask: Seq<usize>) -> usize {
    if mask.len() > 0 {
        (mask[0] / 8) as usize
    } else {
        0
    }
}

impl<K, V> Entry<K, V> {
    /// Equal but for the partial key.
    pub open spec fn same_content(self, other: Self) -> bool {
        other == self.with_partial_key(other.spec_partial_key())
    }
}

/// Two entry sequences equal but for partial keys.
pub open spec fn same_contents<K, V>(a: Seq<Entry<K, V>>, b: Seq<Entry<K, V>>) -> bool {
    &&& a.len() == b.len()
    &&& forall|i: int| 0 <= i < a.len() ==> (#[trigger] a[i]).same_content(b[i])
}

/// `b` is `a` with every partial key recomputed under the given mask and offset.
pub open spec fn refreshed<K: HotKey, V>(
    a: Seq<Entry<K, V>>,
    b: Seq<Entry<K, V>>,
    mask: Seq<usize>,
    byte_offset: usize,
) -> bool {
    &&& a.len() == b.len()
    &&& forall|i: int|
        0 <= i < a.len() ==> #[trigger] b[i] == a[i].with_partial_key(
            partial_key_spec(mask, byte_offset, a[i].spec_key()),
        )
}

/// Inserts `x` into a strictly increasing vector, keeping it strictly
/// increasing; returns whether `x` was new.
pub fn sorted_insert(v: &mut Vec<usize>, x: usize) -> (inserted: bool)
    requires
        strictly_increasing(old(v)@),
    ensures
        strictly_increasing(final(v)@),
        final(v)@.to_set() == old(v)@.to_set().insert(x),
        inserted == !old(v)@.contains(x),
        !inserted ==> final(v)@ == old(v)@,
        inserted ==> final(v)@.len() == old(v)@.len() + 1,
{
    let mut p: usize = 0;
    while p < v.len() && v[p] < x
        invariant
            p <= v@.len(),
            forall|j: int| 0 <= j < p ==> v@[j] < x,
        decreases v@.len() - p,
    {
        p = p + 1;
    }
    if p < v.len() && v[p] == x {
        assert(v@.to_set().insert(x) =~= v@.to_set());
        return false;
    }
    let ghost old_v = v@;
    v.insert(p, x);
    proof {
        assert(forall|j: int| p <= j < old_v.len() ==> old_v[j] > x) by {
            assert forall|j: int| p <= j < old_v.len() implies old_v[j] > x by {
                if j > p {
                    assert(old_v[p as int] < old_v[j]);
                }
            }
        }
        assert(v@ =~= old_v.take(p as int).push(x) + old_v.skip(p as int));
        assert forall|y: usize| #[trigger] v@.to_set().contains(y) == old_v.to_set().insert(x).contains(y) by {
            if v@.contains(y) {
                let j = choose|j: int| 0 <= j < v@.len() && v@[j] == y;
                if j < p {
                    assert(old_v[j] == y);
                } else if j > p {
                    assert(old_v[j - 1] == y);
                }
            }
            if old_v.contains(y) {
                let j = choose|j: int| 0 <= j < old_v.len() && old_v[j] == y;
                if j < p {
                    assert(v@[j] == y);
                } else {
                    assert(v@[j + 1] == y);
                }
            }
            if y == x {
                assert(v@[p as int] == x);
            }
        }
        assert(v@.to_set() =~= old_v.to_set().insert(x));
        if old_v.contains(x) {
            let j = choose|j: int| 0 <= j < old_v.len() && old_v[j] == x;
        }
    }
    true
}

/// The identifier of the leaf at `index` of the node `node_id`: the top bit
/// set, the node id above the low 24 bits, the index in them. Leaf ids are
/// distinct, and distinct from node ids, while node ids stay below 2^39 and
/// indices below 2^24; past that they can collide.
pub open spec fn spec_leaf_id(node_id: u64, index: usize) -> u64 {
    0x8000_0000_0000_0000u64 | (node_id << 24u64) | ((index as u64) & 0xff_ffffu64)
}

/// The identifier of the leaf at `index` of the node `node_id`.
pub fn leaf_id(node_id: u64, index: usize) -> (id: u64)
    ensures
        id == spec_leaf_id(node_id, index),
{
    0x8000_0000_0000_0000u64 | (node_id << 24u64) | ((index as u64) & 0xff_ffffu64)
}

impl<K, V> HOTNode<K, V> {
    /// Creates a new HOT node with the specified height and pre-allocated
    /// capacity, numbered by the counter `next_id`, which it advances.
    pub fn new(height: u16, fanout: usize, next_id: &mut u64) -> (n: Self)
        ensures
            n.id == *old(next_id),
            *final(next_id) == (*old(next_id)).wrapping_add(1),
            n.height == height,
            n.entries@ == Seq::<Entry<K, V>>::empty(),
            n.mask@ == Seq::<usize>::empty(),
            n.byte_offset == 0,
    {
        let id = *next_id;
        *next_id = id.wrapping_add(1);
        HOTNode { id, height, entries: Vec::with_capacity(fanout), mask: Vec::new(), byte_offset: 0 }
    }
}

impl<K: HotKey, V> HOTNode<K, V> {
    /// The partial key this node gives `key`.
    pub open spec fn spec_extract(self, key: K) -> u32 {
        partial_key_spec(self.mask@, self.byte_offset, key)
    }

    /// Recalculates and updates the partial keys for all entries in this node.
    pub fn refresh_partial_keys(&mut self)
        requires
            old(self).byte_offset <= usize::MAX / 8,
        ensures
            final(self).id == old(self).id,
            final(self).height == old(self).height,
            final(self).mask == old(self).mask,
            final(self).byte_offset == old(self).byte_offset,
            refreshed(old(self).entries@, final(self).entries@, old(self).mask@, old(self).byte_offset),
    {
        let ghost old_entries = self.entries@;
        let mut i: usize = 0;
        while i < self.entries.len()
            invariant
                self.byte_offset <= usize::MAX / 8,
                self.id == old(self).id,
                self.height == old(self).height,
                self.mask == old(self).mask,
                self.byte_offset == old(self).byte_offset,
                old_entries == old(self).entries@,
                self.entries@.len() == old_entries.len(),
                i <= old_entries.len(),
                forall|j: int|
                    0 <= j < i ==> #[trigger] self.entries@[j] == old_entries[j].with_partial_key(
                        partial_key_spec(self.mask@, self.byte_offset, old_entries[j].spec_key()),
                    ),
                forall|j: int| i <= j < old_entries.len() ==> #[trigger] self.entries@[j] == old_entries[j],
            decreases old_entries.len() - i,
        {
            let pk = Self::extract_partial_key_static(self.mask.as_slice(), self.byte_offset, self.entries[i].key());
            self.entries[i].set_partial_key(pk);
            i = i + 1;
        }
    }

    /// Extracts a partial key using a specific discriminative mask and byte offset.
    pub fn extract_partial_key_static(mask_bits: &[usize], byte_offset: usize, key: &K) -> (pk: u32)
        requires
            byte_offset <= usize::MAX / 8,
        ensures
            pk == partial_key_spec(mask_bits@, byte_offset, *key),
    {
        if mask_bits.len() == 0 {
            return 0;
        }
        let val = key.get_u64_at(byte_offset);
        let mask = build_window_mask(mask_bits, byte_offset);
        pext(val, mask) as u32
    }

    /// Extracts a partial key from the given key using the node's discriminative mask and offset.
    pub fn extract_partial_key(&self, key: &K) -> (pk: u32)
        requires
            self.byte_offset <= usize::MAX / 8,
        ensures
            pk == self.spec_extract(*key),
    {
        Self::extract_partial_key_static(self.mask.as_slice(), self.byte_offset, key)
    }

    /// Automatically updates the discriminative mask based on the current entries in the node:
    /// the sorted first differing bits of adjacent representative keys, read from
    /// the byte of the first of them. Every entry's partial key is then
    /// recomputed under the new mask and offset.
    pub fn update_mask_from_entries(&mut self)
        requires
            old(self).byte_offset <= usize::MAX / 8,
            forall|i: int|
                0 <= i < old(self).entries@.len() ==> (#[trigger] old(self).entries@[i]).spec_key().key_bytes().len()
                    <= max_key_bytes(),
        ensures
            final(self).id == old(self).id,
            final(self).height == old(self).height,
            final(self).byte_offset <= usize::MAX / 8,
            strictly_increasing(final(self).mask@),
            same_contents(old(self).entries@, final(self).entries@),
            old(self).entries@.len() < 2 ==> {
                &&& final(self).mask@ == Seq::<usize>::empty()
                &&& final(self).byte_offset == old(self).byte_offset
                &&& refreshed(old(self).entries@, final(self).entries@, final(self).mask@, final(self).byte_offset)
            },
            old(self).entries@.len() >= 2 ==> {
                &&& final(self).mask@.to_set() == adjacent_diff_bits(old(self).entries@)
                &&& final(self).mask@.len() < old(self).entries@.len()
                &&& final(self).byte_offset == offset_for(final(self).mask@)
                &&& refreshed(old(self).entries@, final(self).entries@, final(self).mask@, final(self).byte_offset)
            },
            entries_keys_ok(old(self).entries@) ==> final(self).partial_keys_ok(),
    {
        if self.entries.len() < 2 {
            self.mask.clear();
            self.refresh_partial_keys();
            proof {
                crate::trie::lemmas::lemma_refreshed_same(old(self).entries@, self.entries@, self.mask@, self.byte_offset);
            }
            return;
        }
        let ghost s = self.entries@;
        let mut new_mask: Vec<usize> = Vec::new();
        let mut i: usize = 0;
        while i < self.entries.len() - 1
            invariant
                s == self.entries@,
                s.len() >= 2,
                i <= s.len() - 1,
                forall|j: int| 0 <= j < s.len() ==> (#[trigger] s[j]).spec_key().key_bytes().len() <= max_key_bytes(),
                strictly_increasing(new_mask@),
                new_mask@.len() <= i,
                new_mask@.to_set() == Set::new(
                    |p: usize|
                        exists|j: int|
                            0 <= j < i && #[trigger] s[j].spec_key().spec_first_differing_bit(
                                &s[j + 1].spec_key(),
                            ) == Some(p),
                ),
            decreases s.len() - 1 - i,
        {
            let d = self.entries[i].key().first_differing_bit(self.entries[i + 1].key());
            let ghost before = new_mask@.to_set();
            match d {
                Some(pos) => {
                    sorted_insert(&mut new_mask, pos);
                },
                None => {},
            }
            proof {
                let next = Set::new(
                    |p: usize|
                        exists|j: int|
                            0 <= j < i + 1 && #[trigger] s[j].spec_key().spec_first_differing_bit(
                                &s[j + 1].spec_key(),
                            ) == Some(p),
                );
                assert forall|p: usize| #[trigger] new_mask@.to_set().contains(p) == next.contains(p) by {
                    if next.contains(p) {
                        let j = choose|j: int|
                            0 <= j < i + 1 && #[trigger] s[j].spec_key().spec_first_differing_bit(
                                &s[j + 1].spec_key(),
                            ) == Some(p);
                        if j < i {
                            assert(before.contains(p));
                        }
                    }
                    if before.contains(p) {
                        let j = choose|j: int|
                            0 <= j < i && #[trigger] s[j].spec_key().spec_first_differing_bit(
                                &s[j + 1].spec_key(),
                            ) == Some(p);
                        assert(0 <= j < i + 1);
                    }
                }
                assert(new_mask@.to_set() =~= next);
            }
            i = i + 1;
        }
        assert(new_mask@.to_set() =~= adjacent_diff_bits(s));
        let new_byte_offset: usize = if new_mask.len() > 0 { new_mask[0] / 8 } else { 0 };
        self.mask = new_mask;
        self.byte_offset = new_byte_offset;
        self.refresh_partial_keys();
        proof {
            crate::trie::lemmas::lemma_refreshed_same(old(self).entries@, self.entries@, self.mask@, self.byte_offset);
        }
    }
}

} // verus!
