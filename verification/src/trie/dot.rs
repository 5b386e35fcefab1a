use vstd::prelude::*;
use vstd::string::StringExecFns;
use crate::trie::entry::Entry;
use crate::trie::node::HOTNode;
use crate::trie::hot::HOT;
use crate::trie::key::HotKey;

verus! {

/// The character of a decimal digit.
pub open spec fn digit_char(d: nat) -> char {
    if d == 0 { '0' } else if d == 1 { '1' } else if d == 2 { '2' } else if d == 3 { '3' }
    else if d == 4 { '4' } else if d == 5 { '5' } else if d == 6 { '6' } else if d == 7 { '7' }
    else if d == 8 { '8' } else { '9' }
}

/// The decimal digits of `n`, most significant first, without leading zeros.
pub open spec fn decimal(n: nat) -> Seq<char>
    decreases n,
{
    if n < 10 {
        seq![digit_char(n)]
    } else {
        decimal(n / 10) + seq![digit_char(n % 10)]
    }
}

/// The text of a decimal digit.
fn digit_text(d: u64) -> (t: &'static str)
    requires
        d < 10,
    ensures
        t@ == seq![digit_char(d as nat)],
{
    if d == 0 {
        proof {
            reveal_strlit("0");
        }
        "0"
    } else if d == 1 {
        proof {
            reveal_strlit("1");
        }
        "1"
    } else if d == 2 {
        proof {
            reveal_strlit("2");
        }
        "2"
    } else if d == 3 {
        proof {
            reveal_strlit("3");
        }
        "3"
    } else if d == 4 {
        proof {
            reveal_strlit("4");
        }
        "4"
    } else if d == 5 {
        proof {
            reveal_strlit("5");
        }
        "5"
    } else if d == 6 {
        proof {
            reveal_strlit("6");
        }
        "6"
    } else if d == 7 {
        proof {
            reveal_strlit("7");
        }
        "7"
    } else if d == 8 {
        proof {
            reveal_strlit("8");
        }
        "8"
    } else {
        proof {
            reveal_strlit("9");
        }
        "9"
    }
}

/// The decimal text of `n`: its digits, most significant first, without
/// leading zeros.
fn decimal_text(n: u64) -> (r: String)
    ensures
        r@ == decimal(n as nat),
    decreases n,
{
    let mut r = if n < 10 {
        String::new()
    } else {
        decimal_text(n / 10)
    };
    r.append(digit_text(n % 10));
    proof {
        if n < 10 {
            assert(r@ =~= seq![digit_char(n as nat)]);
        } else {
            assert(r@ =~= decimal((n / 10) as nat) + seq![digit_char((n % 10) as nat)]);
        }
    }
    r
}

/// The text a key's `Debug` formatting gives; what it holds is the key
/// type's own affair, so nothing is promised of it.
#[verifier::external_body]
fn debug_label<K: std::fmt::Debug>(k: &K) -> String {
    format!("{:?}", k)
}

/// The number of key labels that the DOT text of an entry prints.
pub open spec fn entry_label_count<K, V>(e: Entry<K, V>) -> nat
    decreases e,
{
    match e {
        Entry::Leaf(_, _, _) => 1,
        Entry::Child(_, c, _) => entries_label_count(c.entries@) + 1,
    }
}

/// The number of key labels that the DOT text of a sequence of entries prints.
pub open spec fn entries_label_count<K, V>(s: Seq<Entry<K, V>>) -> nat
    decreases s,
{
    if s.len() == 0 {
        0
    } else {
        entries_label_count(s.drop_last()) + entry_label_count(s.last())
    }
}

/// The DOT line of a node.
pub open spec fn node_head<K, V>(n: HOTNode<K, V>) -> Seq<char> {
    "  n"@ + decimal(n.id as nat) + " [label=\"Height: "@ + decimal(n.height as nat) + " | Entries: "@ + decimal(
        n.entries@.len(),
    ) + "\", shape=record, style=filled, fillcolor=\"#f9f9f9\"];\n"@
}

/// The DOT text of a subtree: its node line, then its entries, with the key
/// labels `labels` in the order printed.
pub open spec fn node_dot<K, V>(n: HOTNode<K, V>, labels: Seq<Seq<char>>) -> Seq<char>
    decreases n,
{
    node_head(n) + entries_dot(n.entries@, n.id, labels)
}

/// The DOT text of the entries `s` of node `node_id`.
pub open spec fn entries_dot<K, V>(s: Seq<Entry<K, V>>, node_id: u64, labels: Seq<Seq<char>>) -> Seq<char>
    decreases s,
{
    if s.len() == 0 {
        Seq::empty()
    } else {
        let m = labels.len() - entry_label_count(s.last());
        entries_dot(s.drop_last(), node_id, labels.take(m)) + entry_dot(s.last(), node_id, (s.len() - 1) as nat, labels.skip(m))
    }
}

/// The name of the DOT vertex of the leaf at `idx` of node `node_id`.
pub open spec fn leaf_vertex(node_id: u64, idx: nat) -> Seq<char> {
    "l_"@ + decimal(node_id as nat) + "_"@ + decimal(idx)
}

/// The DOT text of the entry at `idx` of node `node_id`: a leaf vertex and its
/// edge, or the child's subtree and an edge labelled with the representative key.
pub open spec fn entry_dot<K, V>(e: Entry<K, V>, node_id: u64, idx: nat, labels: Seq<Seq<char>>) -> Seq<char>
    decreases e,
{
    match e {
        Entry::Leaf(_, _, _) => leaf_lines(node_id, idx, labels[0]),
        Entry::Child(_, c, _) => node_dot(*c, labels.drop_last()) + rep_edge(node_id, c.id, labels.last()),
    }
}

/// The DOT lines of the leaf at `idx` of node `node_id`: its vertex, labelled, and its edge.
pub open spec fn leaf_lines(node_id: u64, idx: nat, label: Seq<char>) -> Seq<char> {
    "  "@ + leaf_vertex(node_id, idx) + " [label=\""@ + label + "\", shape=circle, style=filled, fillcolor=\"#e1f5fe\"];\n"@
        + "  n"@ + decimal(node_id as nat) + " -> "@ + leaf_vertex(node_id, idx) + ";\n"@
}

/// The DOT line of the edge from node `node_id` to its child `child_id`,
/// labelled with the representative key.
pub open spec fn rep_edge(node_id: u64, child_id: u64, label: Seq<char>) -> Seq<char> {
    "  n"@ + decimal(node_id as nat) + " -> n"@ + decimal(child_id as nat) + " [label=\"Rep: "@ + label
        + "\", fontsize=10];\n"@
}

/// Appends the DOT lines of a leaf.
fn append_leaf_lines(dot: &mut String, node_id: u64, idx: usize, label: &String)
    ensures
        final(dot)@ == old(dot)@ + leaf_lines(node_id, idx as nat, label@),
{
    let mut leaf_id = String::new();
    leaf_id.append("l_");
    leaf_id.append(decimal_text(node_id).as_str());
    leaf_id.append("_");
    leaf_id.append(decimal_text(idx as u64).as_str());
    assert(leaf_id@ =~= leaf_vertex(node_id, idx as nat));
    dot.append("  ");
    dot.append(leaf_id.as_str());
    dot.append(" [label=\"");
    dot.append(label.as_str());
    dot.append("\", shape=circle, style=filled, fillcolor=\"#e1f5fe\"];\n");
    dot.append("  n");
    dot.append(decimal_text(node_id).as_str());
    dot.append(" -> ");
    dot.append(leaf_id.as_str());
    dot.append(";\n");
    assert(dot@ =~= old(dot)@ + leaf_lines(node_id, idx as nat, label@));
}

/// Appends the DOT line of an edge to a child.
fn append_rep_edge(dot: &mut String, node_id: u64, child_id: u64, label: &String)
    ensures
        final(dot)@ == old(dot)@ + rep_edge(node_id, child_id, label@),
{
    dot.append("  n");
    dot.append(decimal_text(node_id).as_str());
    dot.append(" -> n");
    dot.append(decimal_text(child_id).as_str());
    dot.append(" [label=\"Rep: ");
    dot.append(label.as_str());
    dot.append("\", fontsize=10];\n");
    assert(dot@ =~= old(dot)@ + rep_edge(node_id, child_id, label@));
}

/// The DOT text of one more entry follows that of the entries before it.
proof fn lemma_entries_dot_step<K, V>(s: Seq<Entry<K, V>>, i: int, node_id: u64, labels: Seq<Seq<char>>, el: Seq<Seq<char>>)
    requires
        0 <= i < s.len(),
        labels.len() == entries_label_count(s.take(i)),
        el.len() == entry_label_count(s[i]),
    ensures
        entries_label_count(s.take(i + 1)) == labels.len() + el.len(),
        entries_dot(s.take(i + 1), node_id, labels + el) == entries_dot(s.take(i), node_id, labels) + entry_dot(
            s[i],
            node_id,
            i as nat,
            el,
        ),
{
    let t = s.take(i + 1);
    assert(t.drop_last() =~= s.take(i));
    assert(t.last() == s[i]);
    let all = labels + el;
    assert(all.take(labels.len() as int) =~= labels);
    assert(all.skip(labels.len() as int) =~= el);
}

impl<K: HotKey, V> HOTNode<K, V> {
    /// Appends the DOT text of the subtree to `dot`; returns the key labels
    /// printed, in order, as the keys' `Debug` formatting gave them.
    pub fn to_dot_internal(&self, dot: &mut String) -> (labels: Ghost<Seq<Seq<char>>>)
        where K: std::fmt::Debug,
        ensures
            labels@.len() == entries_label_count(self.entries@),
            final(dot)@ == old(dot)@ + node_dot(*self, labels@),
        decreases self,
    {
        let node_id = self.id;
        dot.append("  n");
        dot.append(decimal_text(node_id).as_str());
        dot.append(" [label=\"Height: ");
        dot.append(decimal_text(self.height as u64).as_str());
        dot.append(" | Entries: ");
        dot.append(decimal_text(self.entries.len() as u64).as_str());
        dot.append("\", shape=record, style=filled, fillcolor=\"#f9f9f9\"];\n");
        let ghost start = old(dot)@ + node_head(*self);
        proof {
            assert(dot@ =~= start);
        }
        let ghost s = self.entries@;
        let ghost mut labels: Seq<Seq<char>> = Seq::empty();
        proof {
            assert(s.take(0) =~= Seq::<Entry<K, V>>::empty());
            assert(start + entries_dot(s.take(0), node_id, labels) =~= start);
        }
        let mut i: usize = 0;
        while i < self.entries.len()
            invariant
                s == self.entries@,
                node_id == self.id,
                i <= s.len(),
                labels.len() == entries_label_count(s.take(i as int)),
                dot@ == start + entries_dot(s.take(i as int), node_id, labels),
            decreases s.len() - i,
        {
            let ghost before = dot@;
            let ghost e = s[i as int];
            match &self.entries[i] {
                Entry::Leaf(k, _, _) => {
                    let label = debug_label(k);
                    append_leaf_lines(dot, node_id, i, &label);
                    proof {
                        lemma_entries_dot_step(s, i as int, node_id, labels, seq![label@]);
                        assert(labels + seq![label@] == labels.push(label@));
                        labels = labels + seq![label@];
                    }
                },
                Entry::Child(rep, child, _) => {
                    let child_labels = child.to_dot_internal(dot);
                    let ghost mid = dot@;
                    let label = debug_label(rep);
                    append_rep_edge(dot, node_id, child.id, &label);
                    proof {
                        let el = child_labels@.push(label@);
                        assert(el.drop_last() =~= child_labels@);
                        assert(el.last() == label@);
                        lemma_entries_dot_step(s, i as int, node_id, labels, el);
                        labels = labels + el;
                    }
                },
            }
            i = i + 1;
        }
        proof {
            assert(s.take(s.len() as int) =~= s);
        }
        Ghost(labels)
    }
}

/// The DOT text of a trie with the given root and key labels.
pub open spec fn trie_dot<K, V>(root: Option<HOTNode<K, V>>, labels: Seq<Seq<char>>) -> Seq<char> {
    "digraph G {\n  rankdir=TD;\n  node [fontname=\"Arial\"];\n"@ + (match root {
        Some(r) => node_dot(r, labels),
        None => Seq::empty(),
    }) + "}\n"@
}

impl<K: HotKey, V> HOT<K, V> {
    /// Generates a Graphviz DOT representation of the trie.
    pub fn to_dot(&self) -> (dot: String)
        where K: std::fmt::Debug,
        ensures
            exists|labels: Seq<Seq<char>>|
                #![trigger trie_dot(self.root, labels)]
                dot@ == trie_dot(self.root, labels) && labels.len() == match self.root {
                    Some(r) => entries_label_count(r.entries@),
                    None => 0,
                },
            // every node, leaf and child edge of the trie has its lines in the text
            self.root matches Some(r) ==> r.shown_in(dot@),
    {
        let mut dot = String::new();
        dot.append("digraph G {\n  rankdir=TD;\n  node [fontname=\"Arial\"];\n");
        let ghost start = dot@;
        let ghost mut labels: Seq<Seq<char>> = Seq::empty();
        match &self.root {
            Some(root) => {
                let l = root.to_dot_internal(&mut dot);
                proof {
                    labels = l@;
                }
            },
            None => {},
        }
        dot.append("}\n");
        proof {
            let body = if self.root is Some {
                node_dot(self.root->0, labels)
            } else {
                Seq::empty()
            };
            assert(dot@ =~= "digraph G {\n  rankdir=TD;\n  node [fontname=\"Arial\"];\n"@ + body + "}\n"@);
            assert(dot@ == trie_dot(self.root, labels));
            law_to_dot_shows_all(self.root, labels);
        }
        dot
    }
}


/// A decimal digit character.
pub open spec fn is_digit(c: char) -> bool {
    c == '0' || c == '1' || c == '2' || c == '3' || c == '4' || c == '5' || c == '6' || c == '7' || c == '8'
        || c == '9'
}

/// The value of a decimal digit character.
pub open spec fn digit_value(c: char) -> nat {
    if c == '1' { 1 } else if c == '2' { 2 } else if c == '3' { 3 } else if c == '4' { 4 }
    else if c == '5' { 5 } else if c == '6' { 6 } else if c == '7' { 7 } else if c == '8' { 8 }
    else if c == '9' { 9 } else { 0 }
}

/// The number that a sequence of decimal digits writes, most significant first.
pub open spec fn decimal_value(s: Seq<char>) -> nat
    decreases s.len(),
{
    if s.len() == 0 {
        0
    } else {
        decimal_value(s.drop_last()) * 10 + digit_value(s.last())
    }
}

/// A digit's character is a digit and has its value.
proof fn lemma_digit(d: nat)
    requires
        d < 10,
    ensures
        is_digit(digit_char(d)),
        digit_value(digit_char(d)) == d,
{
}

/// The decimal text of `n` is made of digits, is not empty, and writes `n`.
pub proof fn lemma_decimal_digits(n: nat)
    ensures
        decimal(n).len() >= 1,
        forall|k: int| 0 <= k < decimal(n).len() ==> is_digit(#[trigger] decimal(n)[k]),
        decimal_value(decimal(n)) == n,
    decreases n,
{
    lemma_digit(n % 10);
    if n < 10 {
        assert(decimal(n).drop_last() =~= Seq::<char>::empty());
        assert(decimal_value(Seq::<char>::empty()) == 0);
        assert(decimal(n).last() == digit_char(n));
        assert(n % 10 == n);
    } else {
        lemma_decimal_digits(n / 10);
        let d = decimal(n);
        assert(d.drop_last() =~= decimal(n / 10));
        assert(d.last() == digit_char(n % 10));
        assert forall|k: int| 0 <= k < d.len() implies is_digit(#[trigger] d[k]) by {
            if k < d.len() - 1 {
                assert(d[k] == decimal(n / 10)[k]);
            }
        }
        assert((n / 10) * 10 + n % 10 == n);
        assert(decimal_value(d) == decimal_value(decimal(n / 10)) * 10 + digit_value(digit_char(n % 10)));
    }
}

/// Distinct numbers have distinct decimal texts.
pub proof fn lemma_decimal_injective(a: nat, b: nat)
    requires
        decimal(a) == decimal(b),
    ensures
        a == b,
{
    lemma_decimal_digits(a);
    lemma_decimal_digits(b);
}

/// A common prefix taken off two equal texts leaves equal texts.
proof fn lemma_strip_prefix(a: Seq<char>, b: Seq<char>, c: Seq<char>)
    requires
        a + b == a + c,
    ensures
        b == c,
{
    assert(b =~= (a + b).skip(a.len() as int));
    assert(c =~= (a + c).skip(a.len() as int));
}

/// Two texts that each begin with a run of digits followed by a character
/// that is not a digit split at the same place.
proof fn lemma_digits_split(d1: Seq<char>, t1: Seq<char>, d2: Seq<char>, t2: Seq<char>)
    requires
        forall|k: int| 0 <= k < d1.len() ==> is_digit(#[trigger] d1[k]),
        forall|k: int| 0 <= k < d2.len() ==> is_digit(#[trigger] d2[k]),
        t1.len() > 0 && !is_digit(t1[0]),
        t2.len() > 0 && !is_digit(t2[0]),
        d1 + t1 == d2 + t2,
    ensures
        d1 == d2,
        t1 == t2,
{
    let x = d1 + t1;
    if d1.len() < d2.len() {
        assert(x[d1.len() as int] == t1[0]);
        assert((d2 + t2)[d1.len() as int] == d2[d1.len() as int]);
    } else if d2.len() < d1.len() {
        assert((d2 + t2)[d2.len() as int] == t2[0]);
        assert(x[d2.len() as int] == d1[d2.len() as int]);
    } else {
        assert(d1 =~= x.take(d1.len() as int));
        assert(d2 =~= (d2 + t2).take(d2.len() as int));
        assert(t1 =~= x.skip(d1.len() as int));
        assert(t2 =~= (d2 + t2).skip(d2.len() as int));
    }
}

/// The leaf lines split after the leaf's vertex name.
proof fn lemma_leaf_lines_shape(node_id: u64, idx: nat, label: Seq<char>)
    ensures
        ({
            let t = " [label=\""@ + label + "\", shape=circle, style=filled, fillcolor=\"#e1f5fe\"];\n"@ + "  n"@
                + decimal(node_id as nat) + " -> "@ + leaf_vertex(node_id, idx) + ";\n"@;
            &&& leaf_lines(node_id, idx, label) == "  "@ + ("l_"@ + (decimal(node_id as nat) + ("_"@ + (decimal(idx)
                + t))))
            &&& t.len() > 0 && t[0] == ' '
        }),
{
    reveal_strlit(" [label=\"");
    let t = " [label=\""@ + label + "\", shape=circle, style=filled, fillcolor=\"#e1f5fe\"];\n"@ + "  n"@
        + decimal(node_id as nat) + " -> "@ + leaf_vertex(node_id, idx) + ";\n"@;
    assert(t[0] == " [label=\""@[0]);
    assert(leaf_lines(node_id, idx, label) =~= "  "@ + ("l_"@ + (decimal(node_id as nat) + ("_"@ + (decimal(idx)
        + t)))));
}

/// A vertex name followed by a character that is not a digit gives back
/// its node and position.
proof fn lemma_vertex_split(a: u64, i: nat, ta: Seq<char>, b: u64, j: nat, tb: Seq<char>)
    requires
        ta.len() > 0 && !is_digit(ta[0]),
        tb.len() > 0 && !is_digit(tb[0]),
        "l_"@ + (decimal(a as nat) + ("_"@ + (decimal(i) + ta))) == "l_"@ + (decimal(b as nat) + ("_"@ + (decimal(j)
            + tb))),
    ensures
        a == b,
        i == j,
{
    lemma_decimal_digits(a as nat);
    lemma_decimal_digits(b as nat);
    lemma_decimal_digits(i);
    lemma_decimal_digits(j);
    reveal_strlit("_");
    lemma_strip_prefix("l_"@, decimal(a as nat) + ("_"@ + (decimal(i) + ta)), decimal(b as nat) + ("_"@ + (decimal(j)
        + tb)));
    assert(("_"@ + (decimal(i) + ta))[0] == '_');
    assert(("_"@ + (decimal(j) + tb))[0] == '_');
    lemma_digits_split(decimal(a as nat), "_"@ + (decimal(i) + ta), decimal(b as nat), "_"@ + (decimal(j) + tb));
    lemma_strip_prefix("_"@, decimal(i) + ta, decimal(j) + tb);
    lemma_digits_split(decimal(i), ta, decimal(j), tb);
    lemma_decimal_injective(a as nat, b as nat);
    lemma_decimal_injective(i, j);
}

/// The DOT text names each leaf by its node and its position in the node:
/// two different leaves get different vertex names, and the lines that
/// declare them differ, whatever their labels.
pub proof fn law_leaf_lines_distinct(a: u64, i: nat, la: Seq<char>, b: u64, j: nat, lb: Seq<char>)
    requires
        a != b || i != j,
    ensures
        leaf_vertex(a, i) != leaf_vertex(b, j),
        leaf_lines(a, i, la) != leaf_lines(b, j, lb),
{
    let ta = " [label=\""@ + la + "\", shape=circle, style=filled, fillcolor=\"#e1f5fe\"];\n"@ + "  n"@
        + decimal(a as nat) + " -> "@ + leaf_vertex(a, i) + ";\n"@;
    let tb = " [label=\""@ + lb + "\", shape=circle, style=filled, fillcolor=\"#e1f5fe\"];\n"@ + "  n"@
        + decimal(b as nat) + " -> "@ + leaf_vertex(b, j) + ";\n"@;
    lemma_leaf_lines_shape(a, i, la);
    lemma_leaf_lines_shape(b, j, lb);
    if leaf_lines(a, i, la) == leaf_lines(b, j, lb) {
        lemma_strip_prefix("  "@, "l_"@ + (decimal(a as nat) + ("_"@ + (decimal(i) + ta))),
            "l_"@ + (decimal(b as nat) + ("_"@ + (decimal(j) + tb))));
        lemma_vertex_split(a, i, ta, b, j, tb);
    }
    reveal_strlit(" ");
    if leaf_vertex(a, i) == leaf_vertex(b, j) {
        assert(leaf_vertex(a, i) + " "@ =~= "l_"@ + (decimal(a as nat) + ("_"@ + (decimal(i) + " "@))));
        assert(leaf_vertex(b, j) + " "@ =~= "l_"@ + (decimal(b as nat) + ("_"@ + (decimal(j) + " "@))));
        lemma_vertex_split(a, i, " "@, b, j, " "@);
    }
}


/// `p` occurs in `t` as a contiguous part.
pub open spec fn part_of(p: Seq<char>, t: Seq<char>) -> bool {
    exists|i: int| 0 <= i && i + p.len() <= t.len() && #[trigger] t.subrange(i, i + p.len()) == p
}

impl<K, V> HOTNode<K, V> {
    /// The text `t` shows the subtree: the node's line, and for each entry
    /// the lines of the leaf, or the child's subtree and the edge to it.
    pub open spec fn shown_in(self, t: Seq<char>) -> bool
        decreases self,
    {
        &&& part_of(node_head(self), t)
        &&& forall|i: int| 0 <= i < self.entries@.len() ==> (#[trigger] self.entries@[i]).shown_in(self.id, i, t)
    }
}

impl<K, V> Entry<K, V> {
    /// The text `t` shows the entry at `idx` of node `node_id`: a leaf's
    /// vertex and edge lines, under some label; a child's subtree and the
    /// edge to it, under some label.
    pub open spec fn shown_in(self, node_id: u64, idx: int, t: Seq<char>) -> bool
        decreases self,
    {
        match self {
            Entry::Leaf(_, _, _) => exists|l: Seq<char>| part_of(#[trigger] leaf_lines(node_id, idx as nat, l), t),
            Entry::Child(_, c, _) => c.shown_in(t) && exists|l: Seq<char>| part_of(#[trigger] rep_edge(node_id, c.id, l), t),
        }
    }
}

/// A text is a part of itself.
proof fn lemma_part_refl(p: Seq<char>)
    ensures
        part_of(p, p),
{
    let i: int = 0;
    assert(p.subrange(i, i + p.len()) =~= p);
}

/// A part of the first of two joined texts is a part of the whole.
proof fn lemma_part_left(p: Seq<char>, x: Seq<char>, y: Seq<char>)
    requires
        part_of(p, x),
    ensures
        part_of(p, x + y),
{
    let i = choose|i: int| 0 <= i && i + p.len() <= x.len() && #[trigger] x.subrange(i, i + p.len()) == p;
    assert((x + y).subrange(i, i + p.len()) =~= x.subrange(i, i + p.len()));
}

/// A part of the second of two joined texts is a part of the whole.
proof fn lemma_part_right(p: Seq<char>, x: Seq<char>, y: Seq<char>)
    requires
        part_of(p, y),
    ensures
        part_of(p, x + y),
{
    let i = choose|i: int| 0 <= i && i + p.len() <= y.len() && #[trigger] y.subrange(i, i + p.len()) == p;
    assert((x + y).subrange(x.len() + i, x.len() + i + p.len()) =~= y.subrange(i, i + p.len()));
}

/// A part of a part is a part.
proof fn lemma_part_trans(p: Seq<char>, q: Seq<char>, t: Seq<char>)
    requires
        part_of(p, q),
        part_of(q, t),
    ensures
        part_of(p, t),
{
    let j = choose|j: int| 0 <= j && j + p.len() <= q.len() && #[trigger] q.subrange(j, j + p.len()) == p;
    let i = choose|i: int| 0 <= i && i + q.len() <= t.len() && #[trigger] t.subrange(i, i + q.len()) == q;
    assert(t.subrange(i + j, i + j + p.len()) =~= q.subrange(j, j + p.len()));
}

/// The DOT text of each entry is a part of that of the entries, under some
/// of the labels.
proof fn lemma_entries_dot_part<K, V>(s: Seq<Entry<K, V>>, node_id: u64, labels: Seq<Seq<char>>, i: int)
    requires
        0 <= i < s.len(),
    ensures
        exists|el: Seq<Seq<char>>| part_of(#[trigger] entry_dot(s[i], node_id, i as nat, el), entries_dot(s, node_id, labels)),
    decreases s.len(),
{
    let m = labels.len() - entry_label_count(s.last());
    let a = entries_dot(s.drop_last(), node_id, labels.take(m));
    let b = entry_dot(s.last(), node_id, (s.len() - 1) as nat, labels.skip(m));
    assert(entries_dot(s, node_id, labels) == a + b);
    if i == s.len() - 1 {
        lemma_part_refl(b);
        lemma_part_right(b, a, b);
        assert(s.last() == s[i]);
        assert(part_of(entry_dot(s[i], node_id, i as nat, labels.skip(m)), entries_dot(s, node_id, labels)));
    } else {
        lemma_entries_dot_part(s.drop_last(), node_id, labels.take(m), i);
        assert(s.drop_last()[i] == s[i]);
        let el = choose|el: Seq<Seq<char>>| part_of(#[trigger] entry_dot(s.drop_last()[i], node_id, i as nat, el), a);
        lemma_part_left(entry_dot(s[i], node_id, i as nat, el), a, b);
    }
}

/// A text holding the DOT text of a subtree shows the whole subtree.
proof fn lemma_node_dot_shown<K, V>(n: HOTNode<K, V>, labels: Seq<Seq<char>>, t: Seq<char>)
    requires
        part_of(node_dot(n, labels), t),
    ensures
        n.shown_in(t),
    decreases n,
{
    let head = node_head(n);
    let body = entries_dot(n.entries@, n.id, labels);
    lemma_part_refl(head);
    lemma_part_left(head, head, body);
    lemma_part_trans(head, node_dot(n, labels), t);
    lemma_part_refl(body);
    lemma_part_right(body, head, body);
    lemma_part_trans(body, node_dot(n, labels), t);
    let s = n.entries@;
    assert forall|i: int| 0 <= i < s.len() implies (#[trigger] s[i]).shown_in(n.id, i, t) by {
        lemma_entries_dot_part(s, n.id, labels, i);
        let el = choose|el: Seq<Seq<char>>| part_of(#[trigger] entry_dot(s[i], n.id, i as nat, el), body);
        let e = entry_dot(s[i], n.id, i as nat, el);
        lemma_part_trans(e, body, t);
        match s[i] {
            Entry::Leaf(_, _, _) => {
                assert(e == leaf_lines(n.id, i as nat, el[0]));
            },
            Entry::Child(_, c, _) => {
                let sub = node_dot(*c, el.drop_last());
                let edge = rep_edge(n.id, c.id, el.last());
                assert(e == sub + edge);
                lemma_part_refl(sub);
                lemma_part_left(sub, sub, edge);
                lemma_part_trans(sub, e, t);
                lemma_node_dot_shown(*c, el.drop_last(), t);
                lemma_part_refl(edge);
                lemma_part_right(edge, sub, edge);
                lemma_part_trans(edge, e, t);
            },
        }
    }
}

/// The DOT text of a trie shows every node of it, by its line, every leaf,
/// by its vertex and its edge from the node holding it, and every child, by
/// its subtree and its edge from the node holding it, whatever the labels.
pub proof fn law_to_dot_shows_all<K, V>(root: Option<HOTNode<K, V>>, labels: Seq<Seq<char>>)
    ensures
        root matches Some(r) ==> r.shown_in(trie_dot(root, labels)),
{
    if let Some(r) = root {
        let pre = "digraph G {\n  rankdir=TD;\n  node [fontname=\"Arial\"];\n"@;
        let body = node_dot(r, labels);
        let post = "}\n"@;
        lemma_part_refl(body);
        lemma_part_right(body, pre, body);
        lemma_part_left(body, pre + body, post);
        lemma_node_dot_shown(r, labels, trie_dot(root, labels));
    }
}
} // verus!
