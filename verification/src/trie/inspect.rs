use vstd::prelude::*;
use crate::trie::entry::Entry;
use crate::trie::key::HotKey;
use crate::trie::node::{HOTNode, spec_leaf_id, leaf_id};
use crate::trie::hot::HOT;

verus! {

/// The ids and heights of the nodes below the entries `s`, in pre-order.
pub open spec fn entries_heights<K, V>(s: Seq<Entry<K, V>>) -> Seq<(u64, u16)>
    decreases s,
{
    if s.len() == 0 {
        Seq::empty()
    } else {
        entries_heights(s.drop_last()) + match s.last() {
            Entry::Child(_, c, _) => seq![(c.id, c.height)] + entries_heights(c.entries@),
            Entry::Leaf(_, _, _) => Seq::empty(),
        }
    }
}

/// The first node with id `id` below the entries `s`, in pre-order.
pub open spec fn find_in_entries<K, V>(s: Seq<Entry<K, V>>, id: u64) -> Option<HOTNode<K, V>>
    decreases s,
{
    if s.len() == 0 {
        None
    } else {
        match s[0] {
            Entry::Child(_, c, _) => if c.id == id {
                Some(*c)
            } else {
                match find_in_entries(c.entries@, id) {
                    Some(x) => Some(x),
                    None => find_in_entries(s.drop_first(), id),
                }
            },
            Entry::Leaf(_, _, _) => find_in_entries(s.drop_first(), id),
        }
    }
}

/// The key of the first entry (leaf or child, in pre-order) below the
/// entries `s` of node `node_id`, the first at `idx`, whose id is `id`,
/// together with the mask of the node holding it.
pub open spec fn entry_with_id<K, V>(s: Seq<Entry<K, V>>, node_id: u64, mask: Seq<usize>, idx: int, id: u64) -> Option<(K, Seq<usize>)>
    decreases s,
{
    if s.len() == 0 {
        None
    } else if spec_leaf_id(node_id, idx as usize) == id {
        Some((s[0].spec_key(), mask))
    } else {
        let rest = entry_with_id(s.drop_first(), node_id, mask, idx + 1, id);
        match s[0] {
            Entry::Child(_, c, _) => match entry_with_id(c.entries@, c.id, c.mask@, 0, id) {
                Some(x) => Some(x),
                None => rest,
            },
            Entry::Leaf(_, _, _) => rest,
        }
    }
}

impl<K: HotKey, V> HOTNode<K, V> {
    /// Appends the ids and heights of the nodes below this one, in pre-order.
    fn collect_heights_recursive(&self, out: &mut Vec<(u64, u16)>)
        ensures
            final(out)@ == old(out)@ + entries_heights(self.entries@),
        decreases self,
    {
        let ghost s = self.entries@;
        let mut i: usize = 0;
        proof {
            assert(s.take(0) =~= Seq::<Entry<K, V>>::empty());
            assert(old(out)@ + entries_heights(s.take(0)) =~= old(out)@);
        }
        while i < self.entries.len()
            invariant
                s == self.entries@,
                i <= s.len(),
                out@ == old(out)@ + entries_heights(s.take(i as int)),
            decreases s.len() - i,
        {
            proof {
                assert(s.take(i + 1).drop_last() =~= s.take(i as int));
                assert(s.take(i + 1).last() == s[i as int]);
            }
            match &self.entries[i] {
                Entry::Child(_, child, _) => {
                    out.push((child.id, child.height));
                    child.collect_heights_recursive(out);
                    proof {
                        assert(out@ =~= old(out)@ + entries_heights(s.take(i + 1)));
                    }
                },
                Entry::Leaf(_, _, _) => {
                    proof {
                        assert(out@ =~= old(out)@ + entries_heights(s.take(i + 1)));
                    }
                },
            }
            i = i + 1;
        }
        proof {
            assert(s.take(s.len() as int) =~= s);
        }
    }

    /// The first node below this one (in pre-order) with the given id.
    fn find_node_recursive(&self, id: u64) -> (r: Option<&HOTNode<K, V>>)
        ensures
            match r {
                Some(n) => find_in_entries(self.entries@, id) == Some(*n),
                None => find_in_entries(self.entries@, id) is None,
            },
        decreases self,
    {
        let ghost s = self.entries@;
        let mut i: usize = 0;
        proof {
            assert(s.skip(0) =~= s);
        }
        while i < self.entries.len()
            invariant
                s == self.entries@,
                i <= s.len(),
                find_in_entries(s, id) == find_in_entries(s.skip(i as int), id),
            decreases s.len() - i,
        {
            proof {
                assert(s.skip(i as int)[0] == s[i as int]);
                assert(s.skip(i as int).drop_first() =~= s.skip(i + 1));
            }
            if let Entry::Child(_, child, _) = &self.entries[i] {
                if child.id == id {
                    return Some(child);
                }
                if let Some(found) = child.find_node_recursive(id) {
                    return Some(found);
                }
            }
            i = i + 1;
        }
        None
    }

    /// The key and the node mask of the first entry below this node (in
    /// pre-order) whose id is `id`.
    fn find_entry_by_id(&self, id: u64) -> (r: Option<(K, Vec<usize>)>)
        ensures
            match r {
                Some(x) => entry_with_id(self.entries@, self.id, self.mask@, 0, id) == Some((x.0, x.1@)),
                None => entry_with_id(self.entries@, self.id, self.mask@, 0, id) is None,
            },
        decreases self,
    {
        let ghost s = self.entries@;
        let mut i: usize = 0;
        proof {
            assert(s.skip(0) =~= s);
        }
        while i < self.entries.len()
            invariant
                s == self.entries@,
                i <= s.len(),
                entry_with_id(s, self.id, self.mask@, 0, id) == entry_with_id(s.skip(i as int), self.id, self.mask@, i as int, id),
            decreases s.len() - i,
        {
            proof {
                assert(s.skip(i as int)[0] == s[i as int]);
                assert(s.skip(i as int).drop_first() =~= s.skip(i + 1));
            }
            if leaf_id(self.id, i) == id {
                let mask = self.mask.clone();
                proof {
                    assert(mask@ =~= self.mask@);
                }
                return Some((self.entries[i].key().clone_key(), mask));
            }
            if let Entry::Child(_, child, _) = &self.entries[i] {
                if let Some(found) = child.find_entry_by_id(id) {
                    return Some(found);
                }
            }
            i = i + 1;
        }
        None
    }
}

impl<K: HotKey, V> HOT<K, V> {
    /// The ids and heights of all nodes, in pre-order.
    pub fn node_heights(&self) -> (out: Vec<(u64, u16)>)
        ensures
            match self.root {
                Some(r) => out@ == seq![(r.id, r.height)] + entries_heights(r.entries@),
                None => out@ == Seq::<(u64, u16)>::empty(),
            },
    {
        let mut out: Vec<(u64, u16)> = Vec::new();
        if let Some(root) = &self.root {
            out.push((root.id, root.height));
            root.collect_heights_recursive(&mut out);
        }
        out
    }

    /// The node with the given id, the first in pre-order.
    pub fn find_node(&self, id: u64) -> (r: Option<&HOTNode<K, V>>)
        ensures
            match self.root {
                Some(root) => if root.id == id {
                    r == Some(&root)
                } else {
                    match r {
                        Some(n) => find_in_entries(root.entries@, id) == Some(*n),
                        None => find_in_entries(root.entries@, id) is None,
                    }
                },
                None => r is None,
            },
    {
        if let Some(root) = &self.root {
            if root.id == id {
                return Some(root);
            }
            return root.find_node_recursive(id);
        }
        None
    }

    /// The key of the entry (leaf or child) with the given id, the first in pre-order.
    pub fn find_key_by_id(&self, id: u64) -> (r: Option<K>)
        ensures
            match self.root {
                Some(root) => match entry_with_id(root.entries@, root.id, root.mask@, 0, id) {
                    Some(x) => r == Some(x.0),
                    None => r is None,
                },
                None => r is None,
            },
    {
        if let Some(root) = &self.root {
            return match root.find_entry_by_id(id) {
                Some((k, _)) => Some(k),
                None => None,
            };
        }
        None
    }

    /// The mask of the node holding the entry (leaf or child) with the given
    /// id, the first in pre-order.
    pub fn find_mask_for_key(&self, id: u64) -> (r: Option<Vec<usize>>)
        ensures
            match self.root {
                Some(root) => match entry_with_id(root.entries@, root.id, root.mask@, 0, id) {
                    Some(x) => r matches Some(m) && m@ == x.1,
                    None => r is None,
                },
                None => r is None,
            },
    {
        if let Some(root) = &self.root {
            return match root.find_entry_by_id(id) {
                Some((_, m)) => Some(m),
                None => None,
            };
        }
        None
    }
}


/// A node of the entries `s` or below them: a child's node, or a node below one.
pub open spec fn in_entries<K: HotKey, V>(s: Seq<Entry<K, V>>, m: HOTNode<K, V>) -> bool {
    exists|i: int| 0 <= i < s.len() && (#[trigger] s[i]).node_at_or_below(m)
}

/// The node found below the entries `s` by id has that id and lies below
/// them; when none is found, no node below them has the id.
pub proof fn lemma_find_in_entries<K: HotKey, V>(s: Seq<Entry<K, V>>, id: u64)
    ensures
        find_in_entries(s, id) matches Some(m) ==> m.id == id && in_entries(s, m),
        find_in_entries(s, id) is None ==> forall|m: HOTNode<K, V>| #[trigger] in_entries(s, m) ==> m.id != id,
    decreases s,
{
    if s.len() > 0 {
        let t = s.drop_first();
        lemma_find_in_entries(t, id);
        assert forall|m: HOTNode<K, V>| #[trigger] in_entries(t, m) implies in_entries(s, m) by {
            let i = choose|i: int| 0 <= i < t.len() && (#[trigger] t[i]).node_at_or_below(m);
            assert(t[i] == s[i + 1]);
        }
        match s[0] {
            Entry::Child(_, c, _) => {
                lemma_find_in_entries(c.entries@, id);
                if c.id == id {
                    assert(s[0].node_at_or_below(*c));
                } else {
                    if let Some(x) = find_in_entries(c.entries@, id) {
                        assert(c.node_below(x));
                        assert(s[0].node_at_or_below(x));
                    }
                }
                if find_in_entries(s, id) is None {
                    assert forall|m: HOTNode<K, V>| #[trigger] in_entries(s, m) implies m.id != id by {
                        let i = choose|i: int| 0 <= i < s.len() && (#[trigger] s[i]).node_at_or_below(m);
                        if i == 0 {
                            if *c != m {
                                assert(in_entries(c.entries@, m));
                            }
                        } else {
                            assert(t[i - 1] == s[i]);
                            assert(in_entries(t, m));
                        }
                    }
                }
            },
            Entry::Leaf(_, _, _) => {
                if find_in_entries(s, id) is None {
                    assert forall|m: HOTNode<K, V>| #[trigger] in_entries(s, m) implies m.id != id by {
                        let i = choose|i: int| 0 <= i < s.len() && (#[trigger] s[i]).node_at_or_below(m);
                        assert(i != 0);
                        assert(t[i - 1] == s[i]);
                        assert(in_entries(t, m));
                    }
                }
            },
        }
    }
}

/// The nodes in or below the entries of `r` are the nodes below `r`.
pub proof fn lemma_in_entries_below<K: HotKey, V>(r: HOTNode<K, V>)
    ensures
        forall|m: HOTNode<K, V>| #[trigger] r.node_below(m) == in_entries(r.entries@, m),
{
    assert forall|m: HOTNode<K, V>| #[trigger] r.node_below(m) == in_entries(r.entries@, m) by {
        if r.node_below(m) {
            let i = choose|i: int| 0 <= i < r.entries@.len() && (#[trigger] r.entries@[i]).node_at_or_below(m);
            assert(in_entries(r.entries@, m));
        }
        if in_entries(r.entries@, m) {
            let i = choose|i: int| 0 <= i < r.entries@.len() && (#[trigger] r.entries@[i]).node_at_or_below(m);
            assert(r.node_below(m));
        }
    }
}

/// Looking a node up by id finds the root when it has the id, and otherwise
/// a node below the root with the id; it finds nothing exactly when no node
/// of the trie has the id.
pub proof fn law_find_node<K: HotKey, V>(t: HOT<K, V>, id: u64)
    ensures
        t.root matches Some(r) ==> {
            &&& r.id != id ==> (find_in_entries(r.entries@, id) matches Some(m) ==> m.id == id && r.node_below(m))
            &&& r.id != id ==> (find_in_entries(r.entries@, id) is None <==> forall|m: HOTNode<K, V>|
                #[trigger] r.node_below(m) ==> m.id != id)
        },
{
    if let Some(r) = t.root {
        lemma_find_in_entries(r.entries@, id);
        lemma_in_entries_below(r);
        if let Some(m) = find_in_entries(r.entries@, id) {
            assert(r.node_below(m));
        }
    }
}

/// Entry `i` of node `y` has the leaf id `id` and the key `k`, and `m` is
/// the mask of `y`.
pub open spec fn id_entry<K: HotKey, V>(y: HOTNode<K, V>, i: int, id: u64, k: K, m: Seq<usize>) -> bool {
    &&& 0 <= i < y.entries@.len()
    &&& leaf_id_at(y.id, i) == id
    &&& y.entries@[i].spec_key() == k
    &&& y.mask@ == m
}

/// The leaf id of position `i` of node `node_id`.
pub open spec fn leaf_id_at(node_id: u64, i: int) -> u64 {
    spec_leaf_id(node_id, i as usize)
}

/// Some entry of node `y` has the leaf id `id`.
pub open spec fn has_id_entry<K: HotKey, V>(y: HOTNode<K, V>, id: u64) -> bool {
    exists|i: int| 0 <= i < y.entries@.len() && #[trigger] leaf_id_at(y.id, i) == id
}

/// What the search by id across the entries of `x` from `idx` on gives: an
/// entry with the id, of `x` from `idx` on or of a node below them, with its
/// key and its node's mask; nothing exactly when there is no such entry.
pub open spec fn entry_search_ok<K: HotKey, V>(x: HOTNode<K, V>, idx: int, id: u64) -> bool {
    let s = x.entries@.skip(idx);
    match entry_with_id(s, x.id, x.mask@, idx, id) {
        Some(r) => (exists|i: int| idx <= i && #[trigger] id_entry(x, i, id, r.0, r.1)) || (exists|y: HOTNode<K, V>, i: int|
            in_entries(s, y) && #[trigger] id_entry(y, i, id, r.0, r.1)),
        None => (forall|i: int| idx <= i < x.entries@.len() ==> #[trigger] leaf_id_at(x.id, i) != id) && (forall|
            y: HOTNode<K, V>,
        | #[trigger] in_entries(s, y) ==> !has_id_entry(y, id)),
    }
}

/// What `entry_search_ok` states holds of every search by id.
pub proof fn lemma_entry_with_id<K: HotKey, V>(x: HOTNode<K, V>, idx: int, id: u64)
    requires
        0 <= idx <= x.entries@.len(),
    ensures
        entry_search_ok(x, idx, id),
    decreases x, x.entries@.len() - idx,
{
    let s = x.entries@;
    let sk = s.skip(idx);
    if idx < s.len() {
        let t = s.skip(idx + 1);
        assert(sk[0] == s[idx]);
        assert(sk.drop_first() =~= t);
        assert forall|y: HOTNode<K, V>| #[trigger] in_entries(sk, y) == (s[idx].node_at_or_below(y) || in_entries(t, y)) by {
            if in_entries(sk, y) {
                let i = choose|i: int| 0 <= i < sk.len() && (#[trigger] sk[i]).node_at_or_below(y);
                if i > 0 {
                    assert(t[i - 1] == sk[i]);
                }
            }
            if in_entries(t, y) {
                let i = choose|i: int| 0 <= i < t.len() && (#[trigger] t[i]).node_at_or_below(y);
                assert(sk[i + 1] == t[i]);
            }
            if s[idx].node_at_or_below(y) {
                assert(sk[0].node_at_or_below(y));
            }
        }
        lemma_entry_with_id(x, idx + 1, id);
        if spec_leaf_id(x.id, idx as usize) == id {
            assert(id_entry(x, idx, id, s[idx].spec_key(), x.mask@));
            assert(entry_with_id(sk, x.id, x.mask@, idx, id) == Some((s[idx].spec_key(), x.mask@)));
            let r = entry_with_id(sk, x.id, x.mask@, idx, id)->Some_0;
            assert(r.0 == s[idx].spec_key() && r.1 == x.mask@);
            assert(id_entry(x, idx, id, r.0, r.1));
            assert(entry_search_ok(x, idx, id));
        } else {
            match s[idx] {
                Entry::Child(_, c, _) => {
                    assert(c.entries@.skip(0) =~= c.entries@);
                    lemma_entry_with_id(*c, 0, id);
                    assert forall|y: HOTNode<K, V>| #[trigger] in_entries(c.entries@, y) implies s[idx].node_at_or_below(y) by {
                        let i = choose|i: int| 0 <= i < c.entries@.len() && (#[trigger] c.entries@[i]).node_at_or_below(y);
                        assert(c.node_below(y));
                    }
                    match entry_with_id(c.entries@, c.id, c.mask@, 0, id) {
                        Some(r) => {
                            if exists|i: int| 0 <= i && #[trigger] id_entry(*c, i, id, r.0, r.1) {
                                let i = choose|i: int| 0 <= i && #[trigger] id_entry(*c, i, id, r.0, r.1);
                                assert(s[idx].node_at_or_below(*c));
                                assert(in_entries(sk, *c));
                            } else {
                                let (y, i) = choose|y: HOTNode<K, V>, i: int|
                                    in_entries(c.entries@, y) && #[trigger] id_entry(y, i, id, r.0, r.1);
                                assert(in_entries(sk, y));
                            }
                            assert(entry_search_ok(x, idx, id));
                        },
                        None => {
                            if entry_with_id(t, x.id, x.mask@, idx + 1, id) is None {
                                assert forall|y: HOTNode<K, V>| #[trigger] in_entries(sk, y) implies !has_id_entry(y, id) by {
                                    if !in_entries(t, y) {
                                        if *c != y {
                                            assert(c.node_below(y));
                                            let i = choose|i: int| 0 <= i < c.entries@.len() && (#[trigger] c.entries@[i]).node_at_or_below(y);
                                            assert(in_entries(c.entries@, y));
                                        } else {
                                            if has_id_entry(y, id) {
                                                let i = choose|i: int| 0 <= i < y.entries@.len() && #[trigger] leaf_id_at(y.id, i) == id;
                                                assert(leaf_id_at(c.id, i) == id);
                                            }
                                        }
                                    }
                                }
                            }
                            assert(entry_search_ok(x, idx, id));
                        },
                    }
                },
                Entry::Leaf(_, _, _) => {
                    if entry_with_id(sk, x.id, x.mask@, idx, id) is None {
                        assert forall|y: HOTNode<K, V>| #[trigger] in_entries(sk, y) implies !has_id_entry(y, id) by {
                            assert(in_entries(t, y));
                        }
                    }
                    assert(entry_search_ok(x, idx, id));
                },
            }
        }
    } else {
        assert(sk =~= Seq::<Entry<K, V>>::empty());
    }
}

/// Looking an entry up by its leaf id finds an entry with that id, of the
/// root or of a node below it, and gives its key and its node's mask; it
/// finds nothing exactly when no node of the trie has an entry with the id.
pub proof fn law_find_entry_by_id<K: HotKey, V>(t: HOT<K, V>, id: u64)
    ensures
        t.root matches Some(r) ==> {
            &&& entry_with_id(r.entries@, r.id, r.mask@, 0, id) matches Some(x) ==> exists|y: HOTNode<K, V>, i: int|
                (y == r || r.node_below(y)) && #[trigger] id_entry(y, i, id, x.0, x.1)
            &&& entry_with_id(r.entries@, r.id, r.mask@, 0, id) is None <==> forall|y: HOTNode<K, V>|
                #[trigger] has_id_entry(y, id) ==> y != r && !r.node_below(y)
        },
{
    if let Some(r) = t.root {
        lemma_entry_with_id(r, 0, id);
        lemma_in_entries_below(r);
        assert(r.entries@.skip(0) =~= r.entries@);
        let e = entry_with_id(r.entries@, r.id, r.mask@, 0, id);
        if let Some(x) = e {
            if exists|i: int| 0 <= i && #[trigger] id_entry(r, i, id, x.0, x.1) {
                let i = choose|i: int| 0 <= i && #[trigger] id_entry(r, i, id, x.0, x.1);
                assert(id_entry(r, i, id, x.0, x.1));
            } else {
                let (y, i) = choose|y: HOTNode<K, V>, i: int| in_entries(r.entries@, y) && #[trigger] id_entry(y, i, id, x.0, x.1);
                assert(r.node_below(y));
                assert(leaf_id_at(y.id, i) == id);
                assert(has_id_entry(y, id));
            }
            let (y, i) = choose|y: HOTNode<K, V>, i: int| (y == r || r.node_below(y)) && #[trigger] id_entry(y, i, id, x.0, x.1);
            assert(leaf_id_at(y.id, i) == id);
            assert(has_id_entry(y, id));

        } else {
            assert forall|y: HOTNode<K, V>| #[trigger] has_id_entry(y, id) implies y != r && !r.node_below(y) by {
                if y == r {
                    let i = choose|i: int| 0 <= i < y.entries@.len() && #[trigger] leaf_id_at(y.id, i) == id;
                    assert(leaf_id_at(r.id, i) == id);
                }
            }
        }
    }
}

/// A node's id and height.
pub open spec fn id_height<K, V>(m: HOTNode<K, V>) -> (u64, u16) {
    (m.id, m.height)
}

/// `x` is the id and height of a node in or below the entries `s`.
pub open spec fn listed_from<K: HotKey, V>(s: Seq<Entry<K, V>>, x: (u64, u16)) -> bool {
    exists|m: HOTNode<K, V>| in_entries(s, m) && x == #[trigger] id_height(m)
}

/// The nodes listed for the entries `s` are exactly the nodes in or below
/// them, each with its id and height.
pub proof fn lemma_entries_heights<K: HotKey, V>(s: Seq<Entry<K, V>>)
    ensures
        forall|k: int| 0 <= k < entries_heights(s).len() ==> listed_from(s, #[trigger] entries_heights(s)[k]),
        forall|m: HOTNode<K, V>| #[trigger] in_entries(s, m) ==> entries_heights(s).contains(id_height(m)),
    decreases s,
{
    if s.len() > 0 {
        let d = s.drop_last();
        let e = s.last();
        lemma_entries_heights(d);
        let hd = entries_heights(d);
        assert forall|m: HOTNode<K, V>| #[trigger] in_entries(s, m) == (in_entries(d, m) || e.node_at_or_below(m)) by {
            if in_entries(s, m) {
                let i = choose|i: int| 0 <= i < s.len() && (#[trigger] s[i]).node_at_or_below(m);
                if i < d.len() {
                    assert(d[i] == s[i]);
                }
            }
            if in_entries(d, m) {
                let i = choose|i: int| 0 <= i < d.len() && (#[trigger] d[i]).node_at_or_below(m);
                assert(s[i] == d[i]);
            }
            if e.node_at_or_below(m) {
                assert(s[s.len() - 1].node_at_or_below(m));
            }
        }
        assert forall|x: (u64, u16)| #[trigger] listed_from(d, x) implies listed_from(s, x) by {
            let m = choose|m: HOTNode<K, V>| in_entries(d, m) && x == #[trigger] id_height(m);
            assert(in_entries(s, m));
        }
        match e {
            Entry::Child(_, c, _) => {
                lemma_entries_heights(c.entries@);
                lemma_in_entries_below(*c);
                let hc = entries_heights(c.entries@);
                let h = entries_heights(s);
                assert(h == hd + (seq![id_height(*c)] + hc));
                assert forall|x: (u64, u16)| #[trigger] listed_from(c.entries@, x) implies listed_from(s, x) by {
                    let m = choose|m: HOTNode<K, V>| in_entries(c.entries@, m) && x == #[trigger] id_height(m);
                    assert(c.node_below(m));
                    assert(e.node_at_or_below(m));
                    assert(in_entries(s, m));
                }
                assert(e.node_at_or_below(*c));
                assert(in_entries(s, *c));
                assert(listed_from(s, id_height(*c)));
                assert forall|k: int| 0 <= k < h.len() implies listed_from(s, #[trigger] h[k]) by {
                    if k < hd.len() {
                        assert(h[k] == hd[k]);
                    } else if k == hd.len() {
                        assert(h[k] == id_height(*c));
                    } else {
                        assert(h[k] == hc[k - hd.len() - 1]);
                    }
                }
                assert forall|m: HOTNode<K, V>| #[trigger] in_entries(s, m) implies h.contains(id_height(m)) by {
                    if in_entries(d, m) {
                        let k = choose|k: int| 0 <= k < hd.len() && hd[k] == id_height(m);
                        assert(h[k] == hd[k]);
                    } else if *c == m {
                        assert(h[hd.len() as int] == id_height(*c));
                    } else {
                        assert(c.node_below(m));
                        assert(in_entries(c.entries@, m));
                        let k = choose|k: int| 0 <= k < hc.len() && hc[k] == id_height(m);
                        assert(h[hd.len() + 1 + k] == hc[k]);
                    }
                }
            },
            Entry::Leaf(_, _, _) => {
                assert(entries_heights(s) =~= hd);
            },
        }
    } else {
        assert(entries_heights(s) =~= Seq::<(u64, u16)>::empty());
    }
}

/// `x` is the id and height of a node below `r`.
pub open spec fn node_below_with<K: HotKey, V>(r: HOTNode<K, V>, x: (u64, u16)) -> bool {
    exists|m: HOTNode<K, V>| r.node_below(m) && x == #[trigger] id_height(m)
}

/// The heights listed for a trie are those of exactly its nodes: the root
/// first, then each node below it, each with its id and height.
pub proof fn law_node_heights<K: HotKey, V>(t: HOT<K, V>)
    ensures
        t.root matches Some(r) ==> {
            let out = seq![id_height(r)] + entries_heights(r.entries@);
            &&& forall|k: int| 1 <= k < out.len() ==> node_below_with(r, #[trigger] out[k])
            &&& forall|m: HOTNode<K, V>| #[trigger] r.node_below(m) ==> out.contains(id_height(m))
        },
{
    if let Some(r) = t.root {
        let h = entries_heights(r.entries@);
        let out = seq![id_height(r)] + h;
        lemma_entries_heights(r.entries@);
        lemma_in_entries_below(r);
        assert forall|k: int| 1 <= k < out.len() implies node_below_with(r, #[trigger] out[k]) by {
            assert(out[k] == h[k - 1]);
            assert(listed_from(r.entries@, h[k - 1]));
            let m = choose|m: HOTNode<K, V>| in_entries(r.entries@, m) && h[k - 1] == #[trigger] id_height(m);
            assert(r.node_below(m));
        }
        assert forall|m: HOTNode<K, V>| #[trigger] r.node_below(m) implies out.contains(id_height(m)) by {
            assert(in_entries(r.entries@, m));
            let k = choose|k: int| 0 <= k < h.len() && h[k] == id_height(m);
            assert(out[k + 1] == h[k]);
        }
    }
}

} // verus!
