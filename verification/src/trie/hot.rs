use vstd::prelude::*;
use crate::trie::entry::Entry;
use crate::trie::key::{HotKey, max_key_bytes};
use crate::trie::node::{HOTNode, leaves_map, sorted_leaves, keys_fit, all_leaves};
use crate::trie::insert::{inserted, insert_outcome, is_full, has_key, lemma_inserted_map, lemma_wf_intro, split_halves};
use crate::trie::remove::{RemovalShape, removal_outcome, kept};
use crate::trie::lookup::steps_model;
use crate::trie::lemmas::{
    lemma_entries_leaves_concat, lemma_entries_leaves_single, lemma_wf_reps_fit, lemma_wf_same_contents, lemma_within_node,
    lemma_within_entry,
    lemma_same_contents_within,
};

verus! {

/// What inserting into a node tells its parent.
#[verifier::reject_recursive_types(K)]
#[verifier::reject_recursive_types(V)]
#[derive(Debug)]
pub enum InsertResult<K, V> {
    /// The node absorbed the key; its first key is unchanged.
    Done,
    /// The node absorbed the key; its first key is now the given one.
    NewMin(K),
    /// The node overflowed and split into two children that replace it.
    Split(Entry<K, V>, Entry<K, V>),
}

/// What removing from a node tells its parent.
#[verifier::reject_recursive_types(K)]
#[verifier::reject_recursive_types(V)]
#[derive(Debug)]
pub enum RemoveResult<K, V> {
    /// Nothing was removed.
    NotFound,
    /// Something was removed; the ids of the nodes that changed shape.
    Removed(Vec<u64>),
    /// The node lost its last entry.
    Empty,
    /// The node was left with one entry, handed up to replace it, and the
    /// ids of the collapsed nodes.
    Underflow(Entry<K, V>, Vec<u64>),
}

/// The outcome of a removal from the whole trie.
#[derive(Debug, Clone)]
pub struct RemovalResult {
    pub success: bool,
    pub removed_id: Option<u64>,
    pub collapsed_node_ids: Vec<u64>,
    pub message: String,
}

/// One node visited by a search.
#[derive(Debug, Clone)]
pub struct SearchStep {
    pub node_id: u64,
    pub partial_key: u32,
    pub mask: Vec<usize>,
    pub byte_offset: usize,
    pub matched_entry_id: Option<u64>,
}

/// The outcome of a search, with the path it took.
#[derive(Debug, Clone)]
pub struct SearchResult {
    pub visited_nodes: Vec<u64>,
    /// (parent_id, child_id)
    pub visited_edges: Vec<(u64, u64)>,
    pub steps: Vec<SearchStep>,
    pub leaf_id: Option<u64>,
    pub is_match: bool,
    pub is_false_positive: bool,
    pub message: String,
}

/// The phases of an animated search or scan.
#[derive(Debug, Clone, Copy, PartialEq, Eq, Structural)]
pub enum SearchState {
    Idle,
    /// step_index
    EvaluatingNode(usize),
    /// step_index
    EvaluatingEdge(usize),
    ReachedLeaf,
    /// step index for a range scan
    Scanning(usize),
    Finished(bool),
}

/// The next phase of an animated search or scan, once a step is due:
/// a scan moves to its next step or finishes; a search shows a node, then
/// the edge it follows, moving to the next node or to the leaf reached,
/// and then finishes with whether the key matched. `scan_steps` is the
/// number of scan steps, `search_steps` that of the search being shown.
pub open spec fn spec_next_search_state(
    state: SearchState,
    scan_steps: usize,
    search_steps: Option<usize>,
    is_match: bool,
) -> SearchState {
    match state {
        SearchState::Scanning(i) => if i + 1 < scan_steps {
            SearchState::Scanning((i + 1) as usize)
        } else {
            SearchState::Finished(true)
        },
        SearchState::EvaluatingNode(i) => SearchState::EvaluatingEdge(i),
        SearchState::EvaluatingEdge(i) => match search_steps {
            Some(n) => if i + 1 < n {
                SearchState::EvaluatingNode((i + 1) as usize)
            } else {
                SearchState::ReachedLeaf
            },
            None => state,
        },
        SearchState::ReachedLeaf => SearchState::Finished(is_match),
        _ => state,
    }
}

/// Computes the next phase of an animated search or scan, once a step is due.
pub fn next_search_state(state: SearchState, scan_steps: usize, search_steps: Option<usize>, is_match: bool) -> (r:
    SearchState)
    ensures
        r == spec_next_search_state(state, scan_steps, search_steps, is_match),
{
    match state {
        SearchState::Scanning(i) => if scan_steps > 0 && i < scan_steps - 1 {
            SearchState::Scanning(i + 1)
        } else {
            SearchState::Finished(true)
        },
        SearchState::EvaluatingNode(i) => SearchState::EvaluatingEdge(i),
        SearchState::EvaluatingEdge(i) => match search_steps {
            Some(n) => if n > 0 && i < n - 1 {
                SearchState::EvaluatingNode(i + 1)
            } else {
                SearchState::ReachedLeaf
            },
            None => state,
        },
        SearchState::ReachedLeaf => SearchState::Finished(is_match),
        _ => state,
    }
}

impl SearchStep {
    /// The step's fields, with the mask as a sequence.
    pub open spec fn model(self) -> (u64, u32, Seq<usize>, usize, Option<u64>) {
        (self.node_id, self.partial_key, self.mask@, self.byte_offset, self.matched_entry_id)
    }
}

impl Default for RemovalResult {
    fn default() -> (r: Self)
        ensures
            !r.success,
            r.removed_id is None,
            r.collapsed_node_ids@ == Seq::<u64>::empty(),
            r.message@ == Seq::<char>::empty(),
    {
        RemovalResult { success: false, removed_id: None, collapsed_node_ids: Vec::new(), message: String::new() }
    }
}

impl Default for SearchResult {
    fn default() -> (r: Self)
        ensures
            r.visited_nodes@ == Seq::<u64>::empty(),
            r.visited_edges@ == Seq::<(u64, u64)>::empty(),
            r.steps@ == Seq::<SearchStep>::empty(),
            r.leaf_id is None,
            !r.is_match,
            !r.is_false_positive,
            r.message@ == Seq::<char>::empty(),
    {
        SearchResult {
            visited_nodes: Vec::new(),
            visited_edges: Vec::new(),
            steps: Vec::new(),
            leaf_id: None,
            is_match: false,
            is_false_positive: false,
            message: String::new(),
        }
    }
}

/// A wrapper for the Height Optimized Trie to manage the root and height increases.
#[verifier::reject_recursive_types(K)]
#[verifier::reject_recursive_types(V)]
#[derive(Debug)]
pub struct HOT<K, V> {
    pub root: Option<HOTNode<K, V>>,
    pub fanout: usize,
    /// The id that the next node created receives.
    pub next_id: u64,
}

impl<K: HotKey, V> HOT<K, V> {
    /// The trie's invariant: its root, if any, is well formed.
    pub open spec fn wf(self) -> bool {
        self.root matches Some(r) ==> r.wf()
    }

    /// The key-value pairs stored, in key order.
    pub open spec fn leaves(self) -> Seq<(K, V)> {
        match self.root {
            Some(r) => r.leaves(),
            None => Seq::empty(),
        }
    }

    /// Every partial key in the trie is the one its key has under its node's
    /// mask and byte offset.
    pub open spec fn partial_keys_ok(self) -> bool {
        self.root matches Some(r) ==> r.partial_keys_ok()
    }

    /// Every node holds at most the trie's fanout of entries.
    pub open spec fn within_fanout(self) -> bool {
        self.root matches Some(r) ==> r.within(self.fanout)
    }

    /// The root may grow by one level.
    pub open spec fn can_grow(self) -> bool {
        self.root matches Some(r) ==> r.height < u16::MAX
    }
}

impl<K: HotKey, V> View for HOT<K, V> {
    type V = Map<Seq<u8>, V>;

    /// The trie as a map from key bytes to values.
    open spec fn view(&self) -> Map<Seq<u8>, V> {
        leaves_map(self.leaves())
    }
}

impl<K: HotKey, V> HOT<K, V> {
    /// Creates a new empty HOT with specified fanout.
    pub fn new(fanout: usize) -> (t: Self)
        ensures
            t.root is None,
            t.fanout == fanout,
            t.next_id == 1,
            t.wf(),
            t.within_fanout(),
            t.partial_keys_ok(),
            t@ == Map::<Seq<u8>, V>::empty(),
    {
        HOT { root: None, fanout, next_id: 1 }
    }

    /// Inserts a key-value pair into the trie. When the root splits, a new
    /// root one level higher holds its two halves.
    pub fn insert(&mut self, key: K, value: V)
        requires
            old(self).wf(),
            old(self).can_grow(),
            key.key_bytes().len() <= max_key_bytes(),
        ensures
            final(self).wf(),
            inserted(old(self).leaves(), key, value, final(self).leaves()),
            final(self)@ == old(self)@.insert(key.key_bytes(), value),
            final(self).fanout == old(self).fanout,
            // the height grows only when the root was full and overflows, by one
            // level, under a new root holding the two halves
            final(self).root matches Some(r) && match old(self).root {
                Some(o) => r.height == o.height || (r.height == o.height + 1 && r.entries@.len() == 2 && is_full(
                    o,
                    old(self).fanout,
                )),
                None => r.height == 1,
            },
            // with a fanout of at least two, no node ever holds more entries than the fanout
            old(self).fanout >= 2 && old(self).within_fanout() ==> final(self).within_fanout(),
            // insertion keeps every partial key consistent with its node's mask
            old(self).partial_keys_ok() ==> final(self).partial_keys_ok(),
            // the root's shape: a first key makes a lowest root of one leaf; a key
            // already present changes no entry count; a new key in a lowest root
            // becomes one more leaf, or splits the root when it was full
            match old(self).root {
                None => final(self).root matches Some(r) && r.height == 1 && r.entries@.len() == 1 && all_leaves(
                    r.entries@,
                ),
                Some(o) => {
                    &&& has_key(o.leaves(), key.key_bytes()) ==> (final(self).root matches Some(r) && r.height == o.height
                        && r.entries@.len() == o.entries@.len())
                    &&& o.height == 1 && all_leaves(o.entries@) && o.entries@.len() > 0 && !has_key(o.leaves(), key.key_bytes())
                        ==> (final(self).root matches Some(r) && (o.entries@.len() >= old(self).fanout ==> r.height == 2
                        && r.entries@.len() == 2) && (o.entries@.len() < old(self).fanout && o.entries@.len() < 32
                        ==> r.height == 1 && r.entries@.len() == o.entries@.len() + 1 && all_leaves(r.entries@)))
                    &&& ({
                        let t = crate::trie::lookup::key_slot(o.entries@, key.key_bytes());
                        &&& 0 <= t < o.entries@.len() && o.entries@[t] is Leaf && o.entries@[t]->Leaf_0.key_bytes()
                            != key.key_bytes() && o.height > 1 ==> (final(self).root matches Some(r) && r.height == o.height
                            && r.entries@.len() == o.entries@.len())
                        &&& 0 <= t < o.entries@.len() && o.entries@[t] is Child && ({
                            let c = o.entries@[t]->Child_1;
                            c.height == 1 && all_leaves(c.entries@) && c.entries@.len() > 0 && !has_key(c.leaves(), key.key_bytes())
                        }) ==> {
                            let c = o.entries@[t]->Child_1;
                            &&& c.entries@.len() < old(self).fanout && c.entries@.len() < 32 ==> (final(self).root matches Some(
                                r,
                            ) && r.height == o.height && r.entries@.len() == o.entries@.len())
                            &&& c.entries@.len() >= old(self).fanout && o.height == 2 && o.entries@.len() + 1 <= old(self).fanout
                                && o.entries@.len() < 33 ==> (final(self).root matches Some(r) && r.height == 2
                                && r.entries@.len() == o.entries@.len() + 1)
                        }
                    })
                },
            },
    {
        let ghost old_leaves = self.leaves();
        match self.root.take() {
            Some(mut root) => {
                let ghost o = root;
                let height = root.height;
                match root.insert(key, value, self.fanout, &mut self.next_id) {
                    InsertResult::Split(e1, e2) => {
                        // Rule 3: tree height increases only when the root overflows.
                        let mut new_root = HOTNode::new(height + 1, self.fanout, &mut self.next_id);
                        new_root.entries.push(e1);
                        new_root.entries.push(e2);
                        proof {
                            assert(new_root.entries@ =~= seq![e1] + seq![e2]);
                            lemma_entries_leaves_concat(seq![e1], seq![e2]);
                            lemma_entries_leaves_single(e1);
                            lemma_entries_leaves_single(e2);
                            assert(new_root.entries@[0] == e1 && new_root.entries@[1] == e2);
                            lemma_wf_intro(new_root);
                            lemma_wf_reps_fit(new_root);
                        }
                        let ghost before = new_root;
                        new_root.update_mask_from_entries();
                        proof {
                            lemma_wf_same_contents(before, new_root);
                            if self.fanout >= 2 && o.within(self.fanout) {
                                lemma_within_node(new_root, self.fanout);
                                lemma_same_contents_within(before.entries@, new_root.entries@, self.fanout);
                            }
                        }
                        self.root = Some(new_root);
                    },
                    r => {
                        self.root = Some(root);
                    },
                }
            },
            None => {
                let mut root = HOTNode::new(1, self.fanout, &mut self.next_id);
                proof {
                    assert(root.leaves() =~= Seq::<(K, V)>::empty());
                    lemma_wf_intro(root);
                }
                root.insert(key, value, self.fanout, &mut self.next_id);
                self.root = Some(root);
            },
        }
        proof {
            lemma_inserted_map(old_leaves, key, value, self.leaves());
        }
    }

    /// Looks up a key in the trie: the value the trie maps it to, if any.
    pub fn lookup(&self, key: &K) -> (r: Option<&V>)
        requires
            self.wf(),
        ensures
            match r {
                Some(v) => self@.contains_key(key.key_bytes()) && *v == self@[key.key_bytes()],
                None => !self@.contains_key(key.key_bytes()),
            },
    {
        match &self.root {
            Some(root) => root.lookup(key),
            None => {
                proof {
                    assert(self.leaves() =~= Seq::<(K, V)>::empty());
                }
                None
            },
        }
    }

    /// Looks up a key and returns the path of nodes visited.
    pub fn lookup_with_path(&self, key: &K) -> (r: (Option<&V>, Vec<u64>))
        requires
            self.wf(),
        ensures
            match self.root {
                Some(root) => r.1@ == root.lookup_path(*key),
                None => r.1@ == Seq::<u64>::empty(),
            },
            // the path runs down from the root, one id per level, and ends
            // at the leaf holding the key when the key is found, else at a
            // node none of whose children spans the key
            self.root matches Some(root) ==> (r.0 is Some ==> root.leaf_path(r.1@, key.key_bytes())) && (r.0 is None
                ==> root.miss_path(r.1@, key.key_bytes())),
            match r.0 {
                Some(v) => self@.contains_key(key.key_bytes()) && *v == self@[key.key_bytes()],
                None => !self@.contains_key(key.key_bytes()),
            },
    {
        let mut path: Vec<u64> = Vec::new();
        let val = match &self.root {
            Some(root) => root.lookup_with_path(key, &mut path),
            None => {
                proof {
                    assert(self.leaves() =~= Seq::<(K, V)>::empty());
                }
                None
            },
        };
        proof {
            if self.root is Some {
                assert(path@ =~= self.root->0.lookup_path(*key));
                crate::trie::paths::law_lookup_path(self.root->0, *key);
            }
        }
        (val, path)
    }
}

impl<K: HotKey, V> HOT<K, V> {
    /// Performs a full search following the HOT algorithm with detailed path info.
    pub fn search(&self, key: &K) -> (res: SearchResult)
        requires
            self.wf(),
        ensures
            match self.root {
                Some(root) => {
                    let t = root.search_trace(*key);
                    &&& res.visited_nodes@ == t.0
                    &&& res.visited_edges@ == t.1
                    &&& steps_model(res.steps@) == t.2
                    &&& res.leaf_id == t.3
                    &&& res.is_match == (t.3 is Some && t.4)
                    &&& res.is_false_positive == (t.3 is Some && !t.4)
                    &&& res.leaf_id matches Some(lid) ==> exists|kb: Seq<u8>|
                        #[trigger] root.leaf_path(res.visited_nodes@.push(lid), kb) && (res.is_match <==> kb
                            == key.key_bytes())
                    &&& res.leaf_id is None ==> root.node_path(res.visited_nodes@)
                    &&& res.message@ == (if t.3 is Some {
                        if t.4 {
                            "Match Found"@
                        } else {
                            "False Positive (Key mismatch at leaf)"@
                        }
                    } else {
                        "Not Found (No matching partial key)"@
                    })
                },
                None => {
                    &&& res.visited_nodes@ == Seq::<u64>::empty()
                    &&& res.visited_edges@ == Seq::<(u64, u64)>::empty()
                    &&& res.steps@ == Seq::<SearchStep>::empty()
                    &&& res.leaf_id is None
                    &&& !res.is_match
                    &&& !res.is_false_positive
                    &&& res.message@ == "Trie is empty"@
                },
            },
    {
        let mut res = SearchResult::default();
        match &self.root {
            Some(root) => {
                let mut visited_nodes: Vec<u64> = Vec::new();
                let mut visited_edges: Vec<(u64, u64)> = Vec::new();
                let mut steps: Vec<SearchStep> = Vec::new();
                let (leaf_id, is_match) = root.search(key, &mut visited_nodes, &mut visited_edges, &mut steps);
                proof {
                    crate::trie::paths::law_search_reaches_leaf(*root, *key);
                    assert(visited_nodes@ =~= root.search_trace(*key).0);
                    assert(visited_edges@ =~= root.search_trace(*key).1);
                    assert(steps_model(steps@) =~= root.search_trace(*key).2);
                }
                res.visited_nodes = visited_nodes;
                res.visited_edges = visited_edges;
                res.steps = steps;
                res.leaf_id = leaf_id;
                if leaf_id.is_some() {
                    if is_match {
                        res.is_match = true;
                        res.message = "Match Found".to_string();
                    } else {
                        res.is_false_positive = true;
                        res.message = "False Positive (Key mismatch at leaf)".to_string();
                    }
                } else {
                    res.message = "Not Found (No matching partial key)".to_string();
                }
            },
            None => {
                res.message = "Trie is empty".to_string();
            },
        }
        res
    }
}

/// Removing the pair at `j` of a sorted sequence removes its key from the map.
pub proof fn lemma_removed_map<K: HotKey, V>(s: Seq<(K, V)>, j: int)
    requires
        sorted_leaves(s),
        0 <= j < s.len(),
    ensures
        leaves_map(s.remove(j)) == leaves_map(s).remove(s[j].0.key_bytes()),
{
    let kb = s[j].0.key_bytes();
    let t = s.remove(j);
    assert(t =~= s.take(j) + s.skip(j + 1));
    let m = leaves_map(s).remove(kb);
    assert forall|k: Seq<u8>| #[trigger] leaves_map(t).contains_key(k) == m.contains_key(k) by {
        crate::trie::laws::lemma_leaves_map_has(t, k);
        crate::trie::laws::lemma_leaves_map_has(s, k);
        if exists|i: int| 0 <= i < t.len() && (#[trigger] t[i]).0.key_bytes() == k {
            let i = choose|i: int| 0 <= i < t.len() && (#[trigger] t[i]).0.key_bytes() == k;
            let si = if i < j { i } else { i + 1 };
            assert(t[i] == s[si]);
            crate::trie::key::lemma_bytes_lt_irreflexive(kb);
            if si < j {
                assert(crate::trie::key::bytes_lt(s[si].0.key_bytes(), s[j].0.key_bytes()));
            } else {
                assert(crate::trie::key::bytes_lt(s[j].0.key_bytes(), s[si].0.key_bytes()));
            }
        }
        if exists|i: int| 0 <= i < s.len() && (#[trigger] s[i]).0.key_bytes() == k {
            let i = choose|i: int| 0 <= i < s.len() && (#[trigger] s[i]).0.key_bytes() == k;
            if k != kb {
                if i < j {
                    assert(t[i] == s[i]);
                } else if i > j {
                    assert(t[i - 1] == s[i]);
                }
            }
        }
    }
    assert forall|k: Seq<u8>| #[trigger] leaves_map(t).contains_key(k) implies leaves_map(t)[k] == m[k] by {
        crate::trie::laws::lemma_leaves_map_has(t, k);
        let i = choose|i: int| 0 <= i < t.len() && (#[trigger] t[i]).0.key_bytes() == k;
        let si = if i < j { i } else { i + 1 };
        assert(t[i] == s[si]);
        crate::trie::laws::lemma_leaves_map_at(t, i);
        crate::trie::laws::lemma_leaves_map_at(s, si);
    }
    assert(leaves_map(t) =~= m);
}

impl<K: HotKey, V> HOT<K, V> {
    fn handle_root_underflow(&mut self, entry: Entry<K, V>)
        requires
            entry.sound(),
            keys_fit(entry.leaves()),
        ensures
            final(self).wf(),
            final(self).root is Some,
            final(self).leaves() == entry.leaves(),
            final(self).fanout == old(self).fanout,
            old(self).fanout >= 1 && entry.within(old(self).fanout) ==> final(self).within_fanout(),
            // a leaf becomes the one entry of a new lowest root; a child's node becomes the root
            match entry {
                Entry::Leaf(k, v, _) => final(self).root matches Some(r) && r.id == old(self).next_id && r.height == 1
                    && r.entries@ == seq![Entry::Leaf(k, v, 0u32)] && r.mask@ == Seq::<usize>::empty()
                    && r.byte_offset == 0,
                Entry::Child(_, n, _) => final(self).root == Some(*n),
            },
    {
        match entry {
            Entry::Leaf(k, v, _) => {
                let mut new_root = HOTNode::new(1, self.fanout, &mut self.next_id);
                let ghost e = Entry::Leaf(k, v, 0);
                new_root.entries.push(Entry::Leaf(k, v, 0));
                proof {
                    assert(new_root.entries@ =~= seq![e]);
                    lemma_entries_leaves_single(e);
                    assert(new_root.entries@[0].child_ok(new_root.height));
                    lemma_wf_intro(new_root);
                    lemma_wf_reps_fit(new_root);
                }
                let ghost before = new_root;
                new_root.update_mask_from_entries();
                proof {
                    lemma_wf_same_contents(before, new_root);
                    lemma_within_entry(e, self.fanout);
                    lemma_within_node(new_root, self.fanout);
                    assert(new_root.entries@[0] == e);
                    assert(new_root.entries@ =~= seq![e]);
                    lemma_same_contents_within(before.entries@, new_root.entries@, self.fanout);
                }
                self.root = Some(new_root);
            },
            Entry::Child(k, node, p) => {
                proof {
                    lemma_within_entry(Entry::Child(k, node, p), self.fanout);
                }
                self.root = Some(*node);
            },
        }
    }

    /// Removes a node or leaf by its ID (leaf ids as `leaf_id` gives them).
    pub fn remove_by_id(&mut self, target_id: u64) -> (res: RemovalResult)
        requires
            old(self).wf(),
        ensures
            // a failed removal leaves the trie as it was
            !res.success ==> final(self).next_id == old(self).next_id && match old(self).root {
                Some(o) => final(self).root matches Some(n) && n.same_as(o),
                None => final(self).root is None,
            },
            final(self).wf(),
            final(self).fanout == old(self).fanout,
            // no node ever holds more entries than the fanout
            old(self).fanout >= 1 && old(self).within_fanout() ==> final(self).within_fanout(),
            // a removal by id succeeds exactly when the root, or a node or
            // leaf below it, has the id; below the root, the leaves removed
            // are those at and below the node or leaf with the id
            res.success == (old(self).root matches Some(r) && (r.id == target_id || r.has_id(target_id))),
            old(self).root matches Some(r) ==> (r.id != target_id && res.success ==> r.id_leaves(
                target_id,
                r.leaves().subrange(r.remove_id(target_id).1, r.remove_id(target_id).2),
            )),
            match old(self).root {
                None => {
                    &&& !res.success && res.removed_id is None && res.collapsed_node_ids@ == Seq::<u64>::empty()
                    &&& res.message@ == Seq::<char>::empty()
                    &&& final(self).root is None
                },
                Some(r) => if r.id == target_id {
                    &&& res.success && res.removed_id == Some(r.id) && res.collapsed_node_ids@ == Seq::<u64>::empty()
                    &&& res.message@ == "Root removed"@
                    &&& final(self).root is None
                } else {
                    let t = r.remove_id(target_id);
                    let rest = r.leaves().take(t.1) + r.leaves().skip(t.2);
                    match t.0 {
                        RemovalShape::NotFound => {
                            &&& !res.success && res.removed_id is None && res.collapsed_node_ids@ == Seq::<u64>::empty()
                            &&& res.message@ == "Not found"@
                            &&& final(self).leaves() == old(self).leaves()
                        },
                        RemovalShape::Removed(ids) => {
                            &&& res.success && res.removed_id == Some(target_id) && res.collapsed_node_ids@ == ids
                            &&& res.message@ == "Entry removed"@
                            &&& final(self).leaves() == rest
                        },
                        RemovalShape::Empty => {
                            &&& res.success && res.removed_id == Some(target_id) && res.collapsed_node_ids@ == Seq::<u64>::empty()
                            &&& res.message@ == "Trie became empty"@
                            &&& final(self).root is None
                            &&& rest.len() == 0
                        },
                        RemovalShape::Underflow(ids) => {
                            &&& res.success && res.removed_id == Some(target_id) && res.collapsed_node_ids@ == ids.push(r.id)
                            &&& res.message@ == "Underflow handled: level collapsed"@
                            &&& final(self).leaves() == rest
                        },
                    }
                },
            },
    {
        proof {
            if let Some(r) = old(self).root {
                crate::trie::paths::law_remove_by_id_finds(r, target_id);
            }
        }
        let mut res = RemovalResult::default();
        match self.root.take() {
            Some(mut root) => {
                if root.id == target_id {
                    res.success = true;
                    res.removed_id = Some(root.id);
                    res.message = "Root removed".to_string();
                    return res;
                }
                let root_id = root.id;
                let ghost r0 = root;
                match root.remove_by_id(target_id) {
                    RemoveResult::NotFound => {
                        res.success = false;
                        res.message = "Not found".to_string();
                        self.root = Some(root);
                    },
                    RemoveResult::Removed(ids) => {
                        res.success = true;
                        res.removed_id = Some(target_id);
                        res.collapsed_node_ids = ids;
                        res.message = "Entry removed".to_string();
                        self.root = Some(root);
                    },
                    RemoveResult::Empty => {
                        res.success = true;
                        res.removed_id = Some(target_id);
                        res.message = "Trie became empty".to_string();
                    },
                    RemoveResult::Underflow(entry, collapsed) => {
                        proof {
                            let t = r0.remove_id(target_id);
                            crate::trie::remove::lemma_sorted_cut(r0.leaves(), t.1, t.2);
                        }
                        let mut collapsed = collapsed;
                        res.success = true;
                        res.removed_id = Some(target_id);
                        collapsed.push(root_id);
                        res.collapsed_node_ids = collapsed;
                        self.handle_root_underflow(entry);
                        res.message = "Underflow handled: level collapsed".to_string();
                    },
                }
            },
            None => {},
        }
        res
    }

    /// Removes a key from the trie.
    pub fn remove(&mut self, key: &K) -> (res: RemovalResult)
        requires
            old(self).wf(),
        ensures
            // a removal succeeds exactly when the trie holds the key
            res.success == old(self)@.contains_key(key.key_bytes()),
            // a failed removal leaves the trie as it was
            !res.success ==> final(self).next_id == old(self).next_id && match old(self).root {
                Some(o) => final(self).root matches Some(n) && n.same_as(o),
                None => final(self).root is None,
            },
            final(self).wf(),
            final(self).fanout == old(self).fanout,
            // no node ever holds more entries than the fanout
            old(self).fanout >= 1 && old(self).within_fanout() ==> final(self).within_fanout(),
            res.removed_id is None,
            match old(self).root {
                None => {
                    &&& !res.success && res.collapsed_node_ids@ == Seq::<u64>::empty()
                    &&& res.message@ == Seq::<char>::empty()
                    &&& final(self).root is None
                },
                Some(r) => {
                    let t = r.remove_key(*key);
                    match t.0 {
                        RemovalShape::NotFound => {
                            &&& !res.success && res.collapsed_node_ids@ == Seq::<u64>::empty()
                            &&& res.message@ == "Key not found"@
                            &&& final(self).leaves() == old(self).leaves()
                        },
                        RemovalShape::Removed(ids) => {
                            &&& res.success && res.collapsed_node_ids@ == ids
                            &&& res.message@ == "Key removed"@
                            &&& final(self).leaves() == r.leaves().remove(t.1)
                        },
                        RemovalShape::Empty => {
                            &&& res.success && res.collapsed_node_ids@ == Seq::<u64>::empty()
                            &&& res.message@ == "Trie became empty"@
                            &&& final(self).root is None
                            &&& r.leaves().remove(t.1).len() == 0
                        },
                        RemovalShape::Underflow(ids) => {
                            &&& res.success && res.collapsed_node_ids@ == ids.push(r.id)
                            &&& res.message@ == "Underflow handled: level collapsed"@
                            &&& final(self).leaves() == r.leaves().remove(t.1)
                        },
                    }
                },
            },
            res.success ==> final(self)@ == old(self)@.remove(key.key_bytes()),
            !res.success ==> final(self)@ == old(self)@,
    {
        let mut res = RemovalResult::default();
        let ghost old_leaves = self.leaves();
        proof {
            if self.root is Some {
                crate::trie::remove::lemma_remove_key_found(self.root->0, *key);
            } else {
                assert(self.leaves() =~= Seq::<(K, V)>::empty());
            }
        }
        match self.root.take() {
            Some(mut root) => {
                let root_id = root.id;
                let ghost r0 = root;
                match root.remove(key) {
                    RemoveResult::NotFound => {
                        res.success = false;
                        res.message = "Key not found".to_string();
                        self.root = Some(root);
                    },
                    RemoveResult::Removed(ids) => {
                        res.success = true;
                        res.collapsed_node_ids = ids;
                        res.message = "Key removed".to_string();
                        self.root = Some(root);
                    },
                    RemoveResult::Empty => {
                        res.success = true;
                        res.message = "Trie became empty".to_string();
                    },
                    RemoveResult::Underflow(entry, collapsed) => {
                        proof {
                            let j = r0.remove_key(*key).1;
                            assert(r0.leaves().remove(j) =~= r0.leaves().take(j) + r0.leaves().skip(j + 1));
                            crate::trie::remove::lemma_sorted_cut(r0.leaves(), j, j + 1);
                        }
                        let mut collapsed = collapsed;
                        res.success = true;
                        collapsed.push(root_id);
                        res.collapsed_node_ids = collapsed;
                        self.handle_root_underflow(entry);
                        res.message = "Underflow handled: level collapsed".to_string();
                    },
                }
                proof {
                    if res.success {
                        let j = r0.remove_key(*key).1;
                        lemma_removed_map(old_leaves, j);
                        if self.root is None {
                            assert(self.leaves() =~= old_leaves.remove(j));
                        }
                    }
                }
            },
            None => {},
        }
        res
    }
}

impl<K: HotKey, V> HOT<K, V> {
    /// Performs a range scan from `start_key` to `end_key` (inclusive): the
    /// trie's keys between the two, both included, in key order. The leaves
    /// are visited in order, skipping the keys below `start_key`, until a key
    /// above `end_key`.
    pub fn range_scan(&self, start_key: &K, end_key: &K) -> (results: Vec<K>)
        requires
            self.wf(),
        ensures
            results@ == crate::trie::laws::keys_between(self.leaves(), start_key.key_bytes(), end_key.key_bytes()),
    {
        let mut results: Vec<K> = Vec::new();
        if let Some(root) = &self.root {
            let _ = root.scan_from(0, start_key, end_key, &mut results);
            proof {
                assert(root.entries@.skip(0) =~= root.entries@);
                assert(Seq::<K>::empty() + crate::trie::scan::collect_range(
                    root.leaves(),
                    start_key.key_bytes(),
                    end_key.key_bytes(),
                ) =~= crate::trie::scan::collect_range(root.leaves(), start_key.key_bytes(), end_key.key_bytes()));
                crate::trie::laws::lemma_collect_sorted(root.leaves(), start_key.key_bytes(), end_key.key_bytes());
            }
        } else {
            proof {
                assert(self.leaves() =~= Seq::<(K, V)>::empty());
            }
        }
        results
    }
}

} // verus!
