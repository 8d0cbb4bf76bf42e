//! The Huffman code tree: its well-formedness invariant, the frequency
//! statistics it is built from, and the greedy merge that constructs it.

use vstd::prelude::*;

verus! {

/// A node of a Huffman code tree.
///
/// A leaf holds exactly one byte value in `elem`; an internal node holds the
/// union of its children's `elem` sets, and its `count` is the sum of its
/// children's counts.  The child reached on bit 0 is `zero`, the child
/// reached on bit 1 is `one`.
#[derive(Debug, PartialEq, Eq)]
pub struct HuffmanTree {
    pub zero: Option<Box<HuffmanTree>>,
    pub one: Option<Box<HuffmanTree>>,
    pub count: u64,
    pub elem: Vec<u8>,
}

/// A node with no children.
pub open spec fn is_leaf_node(t: HuffmanTree) -> bool {
    t.zero is None && t.one is None
}

/// The degenerate tree produced for an empty input: no children, no symbols.
pub open spec fn is_empty_node(t: HuffmanTree) -> bool {
    t.zero is None && t.one is None && t.count == 0 && t.elem@.len() == 0
}

/// Well-formedness of a Huffman tree.
///
/// A leaf holds exactly one symbol.  An internal node with both children
/// present holds the concatenation of its children's symbols, without
/// duplicates, and the sum of their counts.  A node with only a `zero` child
/// (the wrapper around a single-symbol alphabet, so that the lone symbol
/// still gets a 1-bit codeword) mirrors that child's symbols and count.
pub open spec fn wf(t: HuffmanTree) -> bool
    decreases t,
{
    match t.zero {
        Option::None => match t.one {
            Option::None => t.elem@.len() == 1,
            Option::Some(_) => false,
        },
        Option::Some(z) => match t.one {
            Option::None => wf(*z) && t.elem@ == z.elem@ && t.count == z.count,
            Option::Some(o) => wf(*z) && wf(*o) && t.elem@ == z.elem@ + o.elem@
                && t.count == z.count + o.count && t.elem@.no_duplicates(),
        },
    }
}

/// The frequency recorded at the leaf of `t` that holds symbol `v`, or 0 if
/// no leaf holds `v`.
pub open spec fn leaf_count(t: HuffmanTree, v: u8) -> int
    decreases t,
{
    match t.zero {
        Option::None => match t.one {
            Option::None => if t.elem@.len() == 1 && t.elem@[0] == v {
                t.count as int
            } else {
                0
            },
            Option::Some(o) => leaf_count(*o, v),
        },
        Option::Some(z) => match t.one {
            Option::None => leaf_count(*z, v),
            Option::Some(o) => leaf_count(*z, v) + leaf_count(*o, v),
        },
    }
}

/// How many times symbol `v` occurs in `d`.
pub open spec fn freq(d: Seq<u8>, v: u8) -> int
    decreases d.len(),
{
    if d.len() == 0 {
        0
    } else {
        freq(d.drop_last(), v) + if d.last() == v { 1int } else { 0int }
    }
}

/// Membership in a concatenation is membership in one of the parts.
pub proof fn lemma_concat_contains(x: Seq<u8>, y: Seq<u8>, v: u8)
    ensures
        (x + y).contains(v) <==> x.contains(v) || y.contains(v),
{
    if (x + y).contains(v) {
        let i = choose|i: int| 0 <= i < (x + y).len() && (x + y)[i] == v;
        if i < x.len() {
            assert(x[i] == v);
        } else {
            assert(y[i - x.len()] == v);
        }
    }
    if x.contains(v) {
        let i = choose|i: int| 0 <= i < x.len() && x[i] == v;
        assert((x + y)[i] == v);
    }
    if y.contains(v) {
        let i = choose|i: int| 0 <= i < y.len() && y[i] == v;
        assert((x + y)[x.len() + i] == v);
    }
}

/// The shape of a tree, freed of its vectors: what the merge algorithm is
/// specified to produce.  `Leaf` carries a symbol and its frequency,
/// `Fork` a `zero` and a `one` child, `Wrap` the single-child root that
/// a one-symbol alphabet gets, and `Nil` stands for the empty tree.
pub enum Node {
    Nil,
    Leaf(u8, int),
    Wrap(Box<Node>),
    Fork(Box<Node>, Box<Node>),
}

/// The total frequency below a shape.
pub open spec fn count_of(n: Node) -> int
    decreases n,
{
    match n {
        Node::Nil => 0,
        Node::Leaf(_, c) => c,
        Node::Wrap(z) => count_of(*z),
        Node::Fork(z, o) => count_of(*z) + count_of(*o),
    }
}

/// The symbols below a shape, left to right.
pub open spec fn node_syms(n: Node) -> Seq<u8>
    decreases n,
{
    match n {
        Node::Nil => Seq::empty(),
        Node::Leaf(v, _) => seq![v],
        Node::Wrap(z) => node_syms(*z),
        Node::Fork(z, o) => node_syms(*z) + node_syms(*o),
    }
}

/// The shape of a tree.  A childless node is a `Leaf` when it holds one
/// symbol and `Nil` otherwise; a malformed node with only a `one` child
/// (which no well-formed tree has) also maps to `Nil`.
pub open spec fn model(t: HuffmanTree) -> Node
    decreases t,
{
    match t.zero {
        Option::None => match t.one {
            Option::None => if t.elem@.len() == 1 {
                Node::Leaf(t.elem@[0], t.count as int)
            } else {
                Node::Nil
            },
            Option::Some(_) => Node::Nil,
        },
        Option::Some(z) => match t.one {
            Option::None => Node::Wrap(Box::new(model(*z))),
            Option::Some(o) => Node::Fork(Box::new(model(*z)), Box::new(model(*o))),
        },
    }
}

/// Two trees agree node for node: same children, counts and symbol
/// vectors throughout.
pub open spec fn same_tree(a: HuffmanTree, b: HuffmanTree) -> bool
    decreases a,
{
    &&& a.count == b.count
    &&& a.elem@ == b.elem@
    &&& match a.zero {
        Option::None => b.zero is None,
        Option::Some(az) => match b.zero {
            Option::None => false,
            Option::Some(bz) => same_tree(*az, *bz),
        },
    }
    &&& match a.one {
        Option::None => b.one is None,
        Option::Some(ao) => match b.one {
            Option::None => false,
            Option::Some(bo) => same_tree(*ao, *bo),
        },
    }
}

/// Trees that agree node for node share their shape, well-formedness and
/// leaf counts.
pub proof fn lemma_same_tree(a: HuffmanTree, b: HuffmanTree)
    requires
        same_tree(a, b),
    ensures
        a.elem@ == b.elem@,
        a.count == b.count,
        model(a) == model(b),
        wf(a) <==> wf(b),
        is_empty_node(a) <==> is_empty_node(b),
        forall|v: u8| leaf_count(a, v) == leaf_count(b, v),
    decreases a,
{
    match a.zero {
        Option::None => {},
        Option::Some(az) => {
            let bz = b.zero.unwrap();
            lemma_same_tree(*az, *bz);
            assert(wf(*az) <==> wf(*bz));
        },
    }
    match a.one {
        Option::None => {},
        Option::Some(ao) => {
            let bo = b.one.unwrap();
            lemma_same_tree(*ao, *bo);
            assert(wf(*ao) <==> wf(*bo));
        },
    }
    assert forall|v: u8| #[trigger] leaf_count(a, v) == leaf_count(b, v) by {
        match a.zero {
            Option::None => match a.one {
                Option::None => {},
                Option::Some(ao) => {
                    assert(leaf_count(*ao, v) == leaf_count(*b.one.unwrap(), v));
                },
            },
            Option::Some(az) => match a.one {
                Option::None => {
                    assert(leaf_count(*az, v) == leaf_count(*b.zero.unwrap(), v));
                },
                Option::Some(ao) => {
                    assert(leaf_count(*az, v) == leaf_count(*b.zero.unwrap(), v));
                    assert(leaf_count(*ao, v) == leaf_count(*b.one.unwrap(), v));
                },
            },
        }
    }
}

/// A well-formed tree's count is its shape's count.
pub proof fn lemma_model_count(t: HuffmanTree)
    requires
        wf(t),
    ensures
        count_of(model(t)) == t.count,
    decreases t,
{
    match t.zero {
        Option::None => {},
        Option::Some(z) => match t.one {
            Option::None => {
                lemma_model_count(*z);
            },
            Option::Some(o) => {
                lemma_model_count(*z);
                lemma_model_count(*o);
            },
        },
    }
}

/// A well-formed tree's symbol sequence is its shape's.
pub proof fn lemma_model_syms(t: HuffmanTree)
    requires
        wf(t),
    ensures
        node_syms(model(t)) == t.elem@,
    decreases t,
{
    match t.zero {
        Option::None => {
            assert(node_syms(model(t)) =~= t.elem@);
        },
        Option::Some(z) => match t.one {
            Option::None => {
                lemma_model_syms(*z);
            },
            Option::Some(o) => {
                lemma_model_syms(*z);
                lemma_model_syms(*o);
            },
        },
    }
}

/// A well-formed tree is a leaf exactly when its shape is.
pub proof fn lemma_model_leaf(t: HuffmanTree)
    requires
        wf(t),
    ensures
        is_leaf_node(t) <==> model(t) is Leaf,
{
}

/// The index of the first candidate with the smallest count: a scan from
/// the left that moves only on a strictly smaller count.
pub open spec fn first_min_node(ns: Seq<Node>) -> int
    decreases ns.len(),
{
    if ns.len() <= 1 {
        0
    } else {
        let m = first_min_node(ns.drop_last());
        if count_of(ns.last()) < count_of(ns[m]) {
            ns.len() - 1
        } else {
            m
        }
    }
}

/// What `first_min_node` picks: the smallest count, at its first position.
pub proof fn lemma_first_min_node(ns: Seq<Node>)
    requires
        ns.len() >= 1,
    ensures
        0 <= first_min_node(ns) < ns.len(),
        forall|j: int|
            0 <= j < ns.len() ==> count_of(ns[first_min_node(ns)]) <= count_of(#[trigger] ns[j]),
        forall|j: int|
            0 <= j < first_min_node(ns) ==> count_of(#[trigger] ns[j]) > count_of(
                ns[first_min_node(ns)],
            ),
    decreases ns.len(),
{
    if ns.len() > 1 {
        let dl = ns.drop_last();
        lemma_first_min_node(dl);
        let m0 = first_min_node(dl);
        assert(forall|j: int| 0 <= j < dl.len() ==> #[trigger] dl[j] == ns[j]);
        let fm = first_min_node(ns);
        assert forall|j: int|
            0 <= j < ns.len() implies count_of(ns[fm]) <= count_of(#[trigger] ns[j]) by {
            if j < ns.len() - 1 {
                assert(count_of(dl[m0]) <= count_of(dl[j]));
            }
        }
        assert forall|j: int|
            0 <= j < fm implies count_of(#[trigger] ns[j]) > count_of(ns[fm]) by {
            assert(dl[j] == ns[j]);
            if fm == ns.len() - 1 {
                assert(count_of(dl[m0]) <= count_of(dl[j]));
            } else {
                assert(count_of(dl[j]) > count_of(dl[m0]));
            }
        }
    }
}

/// One merge step on a forest of shapes: remove the first candidate with
/// the smallest count, then the next, and append a fork whose `zero` child
/// is the first (the smaller) and whose `one` child is the other.
pub open spec fn merge_forest(ns: Seq<Node>) -> Seq<Node>
    recommends
        ns.len() >= 2,
{
    let i1 = first_min_node(ns);
    let a = ns[i1];
    let r1 = ns.remove(i1);
    let i2 = first_min_node(r1);
    let b = r1[i2];
    r1.remove(i2).push(Node::Fork(Box::new(a), Box::new(b)))
}

/// Merges a forest of shapes down to one tree shape: no candidate yields
/// the empty tree, a lone leaf is wrapped so its symbol gets a 1-bit
/// codeword, and otherwise the two smallest are merged until one remains.
pub open spec fn merge_all(ns: Seq<Node>) -> Node
    decreases ns.len(),
    via merge_all_dec
{
    if ns.len() == 0 {
        Node::Nil
    } else if ns.len() == 1 {
        match ns[0] {
            Node::Leaf(_, _) => Node::Wrap(Box::new(ns[0])),
            n => n,
        }
    } else {
        merge_all(merge_forest(ns))
    }
}

#[via_fn]
proof fn merge_all_dec(ns: Seq<Node>) {
    if ns.len() >= 2 {
        lemma_first_min_node(ns);
        lemma_first_min_node(ns.remove(first_min_node(ns)));
        assert(merge_forest(ns).len() == ns.len() - 1);
    }
}

/// The merge candidates for a frequency table: one leaf per byte value
/// with a positive count among the first `k` values, in ascending order.
pub open spec fn leaves_upto(counts: Seq<int>, k: int) -> Seq<Node>
    decreases k,
{
    if k <= 0 {
        Seq::empty()
    } else if counts[k - 1] > 0 {
        leaves_upto(counts, k - 1).push(Node::Leaf((k - 1) as u8, counts[k - 1]))
    } else {
        leaves_upto(counts, k - 1)
    }
}

/// The shape that the greedy merge builds for a frequency table: the
/// candidate leaves in ascending byte order, merged two smallest at a time.
pub open spec fn spec_build(counts: Seq<int>) -> Node {
    merge_all(leaves_upto(counts, 256))
}

/// The frequency table of a byte sequence.
pub open spec fn freq_table(d: Seq<u8>) -> Seq<int> {
    Seq::new(256, |j: int| freq(d, j as u8))
}

/// The 256 counts of a serialized frequency table.
pub open spec fn table_counts(table: Seq<u8>) -> Seq<int> {
    Seq::new(256, |j: int| table_count(table, j as u8))
}

/// The shapes of a list of candidate trees.
pub open spec fn models(ns: Seq<HuffmanTree>) -> Seq<Node> {
    Seq::new(ns.len(), |i: int| model(ns[i]))
}

proof fn lemma_models_remove(ns: Seq<HuffmanTree>, i: int)
    requires
        0 <= i < ns.len(),
    ensures
        models(ns.remove(i)) == models(ns).remove(i),
{
    assert(models(ns.remove(i)) =~= models(ns).remove(i));
}

proof fn lemma_models_push(ns: Seq<HuffmanTree>, n: HuffmanTree)
    ensures
        models(ns.push(n)) == models(ns).push(model(n)),
{
    assert(models(ns.push(n)) =~= models(ns).push(model(n)));
}

/// A symbol held by no leaf of a well-formed tree has leaf count 0.
pub proof fn lemma_leaf_count_absent(t: HuffmanTree, v: u8)
    requires
        wf(t),
        !t.elem@.contains(v),
    ensures
        leaf_count(t, v) == 0,
    decreases t,
{
    match t.zero {
        Option::None => {
            assert(t.elem@[0] != v);
        },
        Option::Some(z) => match t.one {
            Option::None => {
                lemma_leaf_count_absent(*z, v);
            },
            Option::Some(o) => {
                lemma_concat_contains(z.elem@, o.elem@, v);
                lemma_leaf_count_absent(*z, v);
                lemma_leaf_count_absent(*o, v);
            },
        },
    }
}

/// Leaf counts are never negative.
pub proof fn lemma_leaf_count_nonneg(t: HuffmanTree, v: u8)
    ensures
        leaf_count(t, v) >= 0,
    decreases t,
{
    match t.zero {
        Option::None => match t.one {
            Option::None => {},
            Option::Some(o) => { lemma_leaf_count_nonneg(*o, v); },
        },
        Option::Some(z) => match t.one {
            Option::None => { lemma_leaf_count_nonneg(*z, v); },
            Option::Some(o) => {
                lemma_leaf_count_nonneg(*z, v);
                lemma_leaf_count_nonneg(*o, v);
            },
        },
    }
}

/// The symbols of a well-formed tree hold no duplicates.
pub proof fn lemma_wf_no_dup(t: HuffmanTree)
    requires
        wf(t),
    ensures
        t.elem@.no_duplicates(),
    decreases t,
{
    match t.zero {
        Option::None => {},
        Option::Some(z) => match t.one {
            Option::None => { lemma_wf_no_dup(*z); },
            Option::Some(_) => {},
        },
    }
}

/// A well-formed leaf holds exactly one symbol.
pub proof fn lemma_wf_leaf_len(t: HuffmanTree)
    requires
        wf(t),
        is_leaf_node(t),
    ensures
        t.elem@.len() == 1,
{
}

/// A well-formed leaf holds exactly the one symbol it contains.
pub proof fn lemma_wf_leaf_sym(t: HuffmanTree, v: u8)
    requires
        wf(t),
        is_leaf_node(t),
        t.elem@.contains(v),
    ensures
        t.elem@.len() == 1,
        t.elem@[0] == v,
{
    let i = choose|i: int| 0 <= i < t.elem@.len() && t.elem@[i] == v;
}

/// A well-formed tree holds at least one symbol.
pub proof fn lemma_wf_elem_nonempty(t: HuffmanTree)
    requires
        wf(t),
    ensures
        t.elem@.len() >= 1,
    decreases t,
{
    match t.zero {
        Option::None => {},
        Option::Some(z) => {
            lemma_wf_elem_nonempty(*z);
        },
    }
}

/// A symbol frequency is bounded by the length of the data.
pub proof fn lemma_freq_le_len(d: Seq<u8>, v: u8)
    ensures
        0 <= freq(d, v) <= d.len(),
    decreases d.len(),
{
    if d.len() > 0 {
        lemma_freq_le_len(d.drop_last(), v);
    }
}

/// Every byte that occurs in the data has a positive frequency.
pub proof fn lemma_freq_positive(d: Seq<u8>, i: int)
    requires
        0 <= i < d.len(),
    ensures
        freq(d, d[i]) > 0,
    decreases d.len(),
{
    if i == d.len() - 1 {
        lemma_freq_le_len(d.drop_last(), d[i]);
    } else {
        lemma_freq_positive(d.drop_last(), i);
    }
}

impl HuffmanTree {
    /// The degenerate tree for an empty input: no children, no symbols.
    pub fn empty() -> (r: HuffmanTree)
        ensures
            is_empty_node(r),
    {
        HuffmanTree { zero: Option::None, one: Option::None, count: 0, elem: Vec::new() }
    }

    /// A deep copy of the tree.
    fn deep_copy(&self) -> (r: HuffmanTree)
        ensures
            same_tree(r, *self),
        decreases *self,
    {
        let zero = match &self.zero {
            Option::Some(z) => Option::Some(Box::new((**z).deep_copy())),
            Option::None => Option::None,
        };
        let one = match &self.one {
            Option::Some(o) => Option::Some(Box::new((**o).deep_copy())),
            Option::None => Option::None,
        };
        HuffmanTree { zero, one, count: self.count, elem: clone_bytes(&self.elem) }
    }
}

impl Clone for HuffmanTree {
    /// A clone agrees with the original node for node (`same_tree`), and so
    /// shares its shape, well-formedness and leaf counts
    /// (`lemma_same_tree`).
    fn clone(&self) -> (r: Self)
        ensures
            same_tree(r, *self),
    {
        self.deep_copy()
    }
}

/// A freshly made merge candidate: a childless node holding exactly the
/// symbol `v`.
pub open spec fn leaf_candidate(t: HuffmanTree, v: u8) -> bool {
    t.zero is None && t.one is None && t.elem@ == seq![v]
}

/// The candidate nodes are well formed, hold pairwise disjoint symbol sets,
/// and each symbol they hold carries its frequency from `counts`.
pub open spec fn nodes_wf(ns: Seq<HuffmanTree>, counts: Seq<u64>) -> bool {
    &&& counts.len() == 256
    &&& (forall|k: int| 0 <= k < ns.len() ==> wf(#[trigger] ns[k]))
    &&& (forall|k1: int, k2: int, v: u8|
        0 <= k1 < ns.len() && 0 <= k2 < ns.len() && k1 != k2 && #[trigger] ns[k1].elem@.contains(
            v,
        ) ==> !(#[trigger] ns[k2].elem@.contains(v)))
    &&& (forall|k: int, v: u8|
        0 <= k < ns.len() && #[trigger] ns[k].elem@.contains(v) ==> leaf_count(ns[k], v)
            == counts[v as int] && counts[v as int] > 0)
}

/// Every symbol below `bound` with a positive frequency is held by some
/// candidate node.
pub open spec fn nodes_cover_upto(ns: Seq<HuffmanTree>, counts: Seq<u64>, bound: int) -> bool {
    forall|v: u8|
        #![trigger counts[v as int]]
        v < bound && counts[v as int] > 0 ==> exists|k: int|
            0 <= k < ns.len() && #[trigger] ns[k].elem@.contains(v)
}

/// The sum of the candidate nodes' counts.
pub open spec fn counts_sum(ns: Seq<HuffmanTree>) -> int
    decreases ns.len(),
{
    if ns.len() == 0 {
        0
    } else {
        counts_sum(ns.drop_last()) + ns.last().count
    }
}

proof fn lemma_counts_sum_nonneg(ns: Seq<HuffmanTree>)
    ensures
        counts_sum(ns) >= 0,
    decreases ns.len(),
{
    if ns.len() > 0 {
        lemma_counts_sum_nonneg(ns.drop_last());
    }
}

proof fn lemma_counts_sum_push(ns: Seq<HuffmanTree>, n: HuffmanTree)
    ensures
        counts_sum(ns.push(n)) == counts_sum(ns) + n.count,
{
    assert(ns.push(n).drop_last() =~= ns);
    assert(ns.push(n).last() == n);
}

proof fn lemma_counts_sum_remove(ns: Seq<HuffmanTree>, i: int)
    requires
        0 <= i < ns.len(),
    ensures
        counts_sum(ns.remove(i)) == counts_sum(ns) - ns[i].count,
    decreases ns.len(),
{
    if i == ns.len() - 1 {
        assert(ns.remove(i) =~= ns.drop_last());
    } else {
        assert(ns.remove(i).drop_last() =~= ns.drop_last().remove(i));
        assert(ns.remove(i).last() == ns.last());
        lemma_counts_sum_remove(ns.drop_last(), i);
    }
}

/// Concatenating two duplicate-free sequences with no symbol in common
/// yields a duplicate-free sequence.
proof fn lemma_no_dup_concat(x: Seq<u8>, y: Seq<u8>)
    requires
        x.no_duplicates(),
        y.no_duplicates(),
        forall|v: u8| #[trigger] x.contains(v) ==> !y.contains(v),
    ensures
        (x + y).no_duplicates(),
{
    assert forall|i: int, j: int|
        0 <= i < (x + y).len() && 0 <= j < (x + y).len() && i != j implies (x + y)[i] != (x
        + y)[j] by {
        if i < x.len() && j >= x.len() {
            if x[i] == y[j - x.len()] {
                assert(x.contains(x[i]));
                assert(y.contains(x[i]));
            }
        } else if i >= x.len() && j < x.len() {
            if y[i - x.len()] == x[j] {
                assert(x.contains(x[j]));
                assert(y.contains(x[j]));
            }
        }
    }
}

/// Removing a candidate keeps the rest well formed and disjoint.
proof fn lemma_nodes_wf_remove(ns: Seq<HuffmanTree>, counts: Seq<u64>, i: int)
    requires
        nodes_wf(ns, counts),
        0 <= i < ns.len(),
    ensures
        nodes_wf(ns.remove(i), counts),
{
    let m = ns.remove(i);
    assert forall|k: int| 0 <= k < m.len() implies wf(#[trigger] m[k]) by {
        if k < i {
            assert(m[k] == ns[k]);
        } else {
            assert(m[k] == ns[k + 1]);
        }
    }
    assert forall|k1: int, k2: int, v: u8|
        0 <= k1 < m.len() && 0 <= k2 < m.len() && k1 != k2 && #[trigger] m[k1].elem@.contains(
            v,
        ) implies !(#[trigger] m[k2].elem@.contains(v)) by {
        let j1 = if k1 < i {
            k1
        } else {
            k1 + 1
        };
        let j2 = if k2 < i {
            k2
        } else {
            k2 + 1
        };
        assert(m[k1] == ns[j1]);
        assert(m[k2] == ns[j2]);
    }
    assert forall|k: int, v: u8|
        0 <= k < m.len() && #[trigger] m[k].elem@.contains(v) implies leaf_count(m[k], v)
        == counts[v as int] && counts[v as int] > 0 by {
        if k < i {
            assert(m[k] == ns[k]);
        } else {
            assert(m[k] == ns[k + 1]);
        }
    }
}

/// Copies a byte vector.
fn clone_bytes(v: &Vec<u8>) -> (r: Vec<u8>)
    ensures
        r@ == v@,
{
    let mut r: Vec<u8> = Vec::new();
    let mut i: usize = 0;
    while i < v.len()
        invariant
            i <= v@.len(),
            r@ == v@.take(i as int),
        decreases v@.len() - i,
    {
        r.push(v[i]);
        proof {
            assert(v@.take((i + 1) as int) =~= v@.take(i as int).push(v@[i as int]));
        }
        i += 1;
    }
    proof {
        assert(v@.take(v@.len() as int) =~= v@);
    }
    r
}

/// The index of the first candidate with the smallest count.
fn min_index(v: &Vec<HuffmanTree>) -> (m: usize)
    requires
        v@.len() > 0,
    ensures
        m < v@.len(),
        forall|j: int| 0 <= j < v@.len() ==> v@[m as int].count <= #[trigger] v@[j].count,
        forall|j: int| 0 <= j < m ==> #[trigger] v@[j].count > v@[m as int].count,
{
    let mut m: usize = 0;
    let mut i: usize = 1;
    while i < v.len()
        invariant
            (m as int) < (i as int),
            i <= v@.len(),
            forall|j: int| 0 <= j < i ==> v@[m as int].count <= #[trigger] v@[j].count,
            forall|j: int| 0 <= j < m ==> #[trigger] v@[j].count > v@[m as int].count,
        decreases v@.len() - i,
    {
        if v[i].count < v[m].count {
            m = i;
        }
        i += 1;
    }
    m
}

/// One childless candidate per byte value, carrying the given counts.
fn leaf_nodes(counts: &Vec<u64>) -> (r: Vec<HuffmanTree>)
    requires
        counts@.len() == 256,
    ensures
        r@.len() == 256,
        forall|j: int|
            0 <= j < 256 ==> leaf_candidate(#[trigger] r@[j], j as u8) && r@[j].count
                == counts@[j],
{
    let mut r: Vec<HuffmanTree> = Vec::new();
    let mut j: usize = 0;
    while j < 256
        invariant
            counts@.len() == 256,
            r@.len() == j,
            j <= 256,
            forall|k: int|
                0 <= k < j ==> leaf_candidate(#[trigger] r@[k], k as u8) && r@[k].count
                    == counts@[k],
        decreases 256 - j,
    {
        let mut e: Vec<u8> = Vec::new();
        e.push(j as u8);
        r.push(HuffmanTree { zero: Option::None, one: Option::None, count: counts[j], elem: e });
        proof {
            assert(r@[j as int].elem@ =~= seq![j as u8]);
        }
        j += 1;
    }
    r
}

/// Greedily merges the 256 per-byte candidates into a single Huffman tree.
///
/// Candidates with count 0 are discarded.  While more than one candidate
/// remains, the two with the smallest counts are removed (ties resolved by
/// the earliest position, i.e. ascending byte value for fresh leaves), the
/// smaller becomes the `zero` child and the other the `one` child of a new
/// candidate.  A lone surviving leaf is wrapped in a single-child node so
/// that its symbol still gets a 1-bit codeword; no survivor at all yields
/// the empty tree.
pub(crate) fn compile_nodes(nodes: Vec<HuffmanTree>) -> (r: HuffmanTree)
    requires
        nodes@.len() == 256,
        forall|j: int| 0 <= j < 256 ==> leaf_candidate(#[trigger] nodes@[j], j as u8),
        forall|j: int| 0 <= j < 256 ==> (#[trigger] nodes@[j].count) < 0x1_0000_0000,
    ensures
        forall|v: u8| leaf_count(r, v) == nodes@[v as int].count,
        forall|v: u8| r.elem@.contains(v) <==> nodes@[v as int].count > 0,
        (exists|j: int| 0 <= j < 256 && (#[trigger] nodes@[j].count) > 0) ==> wf(r)
            && !is_leaf_node(r),
        (forall|j: int| 0 <= j < 256 ==> (#[trigger] nodes@[j].count) == 0) ==> is_empty_node(
            r,
        ),
        model(r) == spec_build(Seq::new(256, |j: int| nodes@[j].count as int)),
{
    let mut nodes = nodes;
    let ghost orig = nodes@;
    let ghost counts = Seq::new(256, |j: int| orig[j].count);
    let ghost cint = Seq::new(256, |j: int| orig[j].count as int);

    // Reverse the candidates so that popping walks them in ascending order.
    let mut rev: Vec<HuffmanTree> = Vec::new();
    while nodes.len() > 0
        invariant
            nodes@ == orig.take(nodes@.len() as int),
            orig.len() == 256,
            rev@.len() == 256 - nodes@.len(),
            forall|k: int| 0 <= k < rev@.len() ==> #[trigger] rev@[k] == orig[255 - k],
        decreases nodes@.len(),
    {
        let n = nodes.pop().unwrap();
        rev.push(n);
    }

    // Keep only the candidates whose symbol actually occurs.
    let mut live: Vec<HuffmanTree> = Vec::new();
    proof {
        assert(models(live@) =~= leaves_upto(cint, 0));
    }
    while rev.len() > 0
        invariant
            orig.len() == 256,
            counts == Seq::new(256, |j: int| orig[j].count),
            cint == Seq::new(256, |j: int| orig[j].count as int),
            forall|j: int| 0 <= j < 256 ==> leaf_candidate(#[trigger] orig[j], j as u8),
            forall|j: int| 0 <= j < 256 ==> (#[trigger] orig[j].count) < 0x1_0000_0000,
            rev@.len() <= 256,
            forall|k: int| 0 <= k < rev@.len() ==> #[trigger] rev@[k] == orig[255 - k],
            nodes_wf(live@, counts),
            nodes_cover_upto(live@, counts, 256 - rev@.len()),
            forall|k: int, v: u8|
                0 <= k < live@.len() && #[trigger] live@[k].elem@.contains(v) ==> (v as int) < 256
                    - rev@.len(),
            counts_sum(live@) <= (256 - rev@.len()) * 0xFFFF_FFFF,
            models(live@) == leaves_upto(cint, 256 - rev@.len()),
        decreases rev@.len(),
    {
        let ghost p = 256 - rev@.len();
        let n = rev.pop().unwrap();
        proof {
            assert(n == orig[p]);
            assert(n.elem@ == seq![p as u8]);
            assert(n.elem@.contains(p as u8)) by {
                assert(n.elem@[0] == p as u8);
            }
            assert(forall|v: u8| #[trigger] n.elem@.contains(v) ==> v as int == p);
        }
        if n.count > 0 {
            let ghost l0 = live@;
            live.push(n);
            proof {
                lemma_counts_sum_push(l0, n);
                lemma_models_push(l0, n);
                assert(model(n) == Node::Leaf(p as u8, cint[p]));
                assert(leaves_upto(cint, p + 1) == leaves_upto(cint, p).push(
                    Node::Leaf(p as u8, cint[p]),
                ));
                assert forall|v: u8|
                    #![trigger counts[v as int]]
                    v < p + 1 && counts[v as int] > 0 implies exists|k: int|
                    0 <= k < live@.len() && #[trigger] live@[k].elem@.contains(v) by {
                    if (v as int) < p {
                        let k = choose|k: int|
                            0 <= k < l0.len() && #[trigger] l0[k].elem@.contains(v);
                        assert(live@[k].elem@.contains(v));
                    } else {
                        assert(live@[l0.len() as int].elem@.contains(v));
                    }
                }
            }
        } else {
            proof {
                assert(counts[p] == 0);
                assert(leaves_upto(cint, p + 1) == leaves_upto(cint, p));
            }
        }
    }

    if live.len() == 0 {
        proof {
            assert forall|j: int| 0 <= j < 256 implies (#[trigger] orig[j].count) == 0 by {
                if orig[j].count > 0 {
                    assert(counts[j] > 0);
                    assert(nodes_cover_upto(live@, counts, 256));
                }
            }
            assert(leaves_upto(cint, 256) =~= Seq::<Node>::empty());
        }
        return HuffmanTree::empty();
    }

    // Merge the two smallest candidates until one tree remains.
    proof {
        assert(merge_all(models(live@)) == spec_build(cint));
    }
    while live.len() > 1
        invariant
            live@.len() >= 1,
            nodes_wf(live@, counts),
            nodes_cover_upto(live@, counts, 256),
            counts_sum(live@) <= 0xFF_FFFF_FF00,
            merge_all(models(live@)) == spec_build(cint),
        decreases live@.len(),
    {
        let ghost l0 = live@;
        let m1 = min_index(&live);
        let a = live.remove(m1);
        let ghost l1 = live@;
        let m2 = min_index(&live);
        let b = live.remove(m2);
        let ghost l2 = live@;
        let ghost jb = if (m2 as int) < (m1 as int) {
            m2 as int
        } else {
            m2 as int + 1
        };
        proof {
            lemma_nodes_wf_remove(l0, counts, m1 as int);
            lemma_nodes_wf_remove(l1, counts, m2 as int);
            assert(b == l0[jb]);
            assert(jb != m1 as int);
            lemma_counts_sum_remove(l0, m1 as int);
            lemma_counts_sum_remove(l1, m2 as int);
            lemma_counts_sum_nonneg(l2);
        }
        let mut e = clone_bytes(&a.elem);
        let mut e2 = clone_bytes(&b.elem);
        e.append(&mut e2);
        let sum = a.count + b.count;
        proof {
            lemma_wf_no_dup(a);
            lemma_wf_no_dup(b);
            assert forall|v: u8| #[trigger] a.elem@.contains(v) implies !b.elem@.contains(v) by {
                assert(a == l0[m1 as int]);
            }
            lemma_no_dup_concat(a.elem@, b.elem@);
        }
        let node = HuffmanTree {
            zero: Option::Some(Box::new(a)),
            one: Option::Some(Box::new(b)),
            count: sum,
            elem: e,
        };
        proof {
            assert(wf(node));
        }
        live.push(node);
        proof {
            let ln = live@;
            let last = l2.len() as int;
            assert(ln[last] == node);
            lemma_counts_sum_push(l2, node);
            // Where each symbol of the merged node came from, and its count.
            assert forall|v: u8| #[trigger] node.elem@.contains(v) implies leaf_count(node, v)
                == counts[v as int] && counts[v as int] > 0 by {
                lemma_concat_contains(a.elem@, b.elem@, v);
                if a.elem@.contains(v) {
                    assert(a == l0[m1 as int]);
                    assert(!b.elem@.contains(v));
                    lemma_leaf_count_absent(b, v);
                } else {
                    assert(b == l0[jb]);
                    lemma_leaf_count_absent(a, v);
                }
            }
            // The merged node stays disjoint from the untouched candidates.
            assert forall|k1: int, k2: int, v: u8|
                0 <= k1 < ln.len() && 0 <= k2 < ln.len() && k1 != k2 && #[trigger] ln[k1].elem@.contains(
                    v,
                ) implies !(#[trigger] ln[k2].elem@.contains(v)) by {
                if k1 == last || k2 == last {
                    let ko = if k1 == last {
                        k2
                    } else {
                        k1
                    };
                    assert(ln[ko] == l2[ko]);
                    let jo1 = if ko < m2 as int {
                        ko
                    } else {
                        ko + 1
                    };
                    let jo = if jo1 < m1 as int {
                        jo1
                    } else {
                        jo1 + 1
                    };
                    assert(ln[ko] == l0[jo]);
                    assert(jo != m1 as int && jo != jb);
                    lemma_concat_contains(a.elem@, b.elem@, v);
                    if ln[ko].elem@.contains(v) {
                        assert(!l0[m1 as int].elem@.contains(v));
                        assert(!l0[jb].elem@.contains(v));
                        assert(!node.elem@.contains(v));
                    } else {
                        assert(!ln[ko].elem@.contains(v));
                    }
                } else {
                    assert(ln[k1] == l2[k1]);
                    assert(ln[k2] == l2[k2]);
                }
            }
            // Coverage carries over to the new candidate list.
            assert forall|v: u8|
                #![trigger counts[v as int]]
                v < 256 && counts[v as int] > 0 implies exists|k: int|
                0 <= k < ln.len() && #[trigger] ln[k].elem@.contains(v) by {
                let k0 = choose|k: int| 0 <= k < l0.len() && #[trigger] l0[k].elem@.contains(v);
                lemma_concat_contains(a.elem@, b.elem@, v);
                if k0 == m1 as int || k0 == jb {
                    assert(node.elem@.contains(v));
                    assert(ln[last].elem@.contains(v));
                } else {
                    let k1 = if k0 < m1 as int {
                        k0
                    } else {
                        k0 - 1
                    };
                    assert(l1[k1] == l0[k0]);
                    let k2 = if k1 < m2 as int {
                        k1
                    } else {
                        k1 - 1
                    };
                    assert(l2[k2] == l1[k1]);
                    assert(ln[k2].elem@.contains(v));
                }
            }
            // The step performed is exactly one spec merge step.
            let ms = models(l0);
            lemma_first_min_node(ms);
            assert forall|k: int| 0 <= k < l0.len() implies count_of(#[trigger] ms[k])
                == l0[k].count by {
                lemma_model_count(l0[k]);
            }
            assert(m1 as int == first_min_node(ms)) by {
                let fm = first_min_node(ms);
                if (m1 as int) < fm {
                    assert(count_of(ms[m1 as int]) > count_of(ms[fm]));
                    assert(l0[m1 as int].count <= l0[fm].count);
                } else if fm < m1 as int {
                    assert(l0[fm].count > l0[m1 as int].count);
                    assert(count_of(ms[fm]) <= count_of(ms[m1 as int]));
                }
            }
            lemma_models_remove(l0, m1 as int);
            let ms1 = models(l1);
            lemma_first_min_node(ms1);
            assert forall|k: int| 0 <= k < l1.len() implies count_of(#[trigger] ms1[k])
                == l1[k].count by {
                lemma_model_count(l1[k]);
            }
            assert(m2 as int == first_min_node(ms1)) by {
                let fm = first_min_node(ms1);
                if (m2 as int) < fm {
                    assert(count_of(ms1[m2 as int]) > count_of(ms1[fm]));
                    assert(l1[m2 as int].count <= l1[fm].count);
                } else if fm < m2 as int {
                    assert(l1[fm].count > l1[m2 as int].count);
                    assert(count_of(ms1[fm]) <= count_of(ms1[m2 as int]));
                }
            }
            lemma_models_remove(l1, m2 as int);
            lemma_models_push(l2, node);
            assert(model(node) == Node::Fork(Box::new(model(a)), Box::new(model(b))));
            assert(ms[m1 as int] == model(a));
            assert(ms1[m2 as int] == model(b));
            assert(models(live@) == merge_forest(ms));
            assert(merge_all(ms) == merge_all(merge_forest(ms)));
        }
    }

    let ghost lfin = live@;
    let root = match live.pop() {
        Option::Some(n) => n,
        Option::None => HuffmanTree::empty(),
    };
    proof {
        assert(root == lfin[0]);
        assert(wf(root));
        assert(models(lfin).len() == 1);
        assert(models(lfin)[0] == model(root));
        assert(merge_all(models(lfin)) == spec_build(cint));
        lemma_model_leaf(root);
        lemma_wf_elem_nonempty(root);
        assert(root.elem@.contains(root.elem@[0]));
        assert(orig[root.elem@[0] as int].count > 0);
        assert forall|v: u8| #[trigger] leaf_count(root, v) == counts[v as int] && (
        root.elem@.contains(v) <==> counts[v as int] > 0) by {
            if root.elem@.contains(v) {
            } else {
                lemma_leaf_count_absent(root, v);
                if counts[v as int] > 0 {
                    let k = choose|k: int|
                        0 <= k < lfin.len() && #[trigger] lfin[k].elem@.contains(v);
                    assert(k == 0);
                    assert(false);
                }
            }
        }
    }
    if root.zero.is_none() && root.one.is_none() {
        let e = clone_bytes(&root.elem);
        let c = root.count;
        let r = HuffmanTree {
            zero: Option::Some(Box::new(root)),
            one: Option::None,
            count: c,
            elem: e,
        };
        proof {
            assert(wf(r));
            assert(model(root) is Leaf);
            assert(model(r) == Node::Wrap(Box::new(model(root))));
            assert(merge_all(models(lfin)) == Node::Wrap(Box::new(model(root))));
            assert forall|v: u8| #[trigger] leaf_count(r, v) == orig[v as int].count by {
                assert(leaf_count(r, v) == leaf_count(root, v));
                assert(leaf_count(root, v) == counts[v as int]);
                assert(counts[v as int] == orig[v as int].count);
            }
            assert forall|v: u8| r.elem@.contains(v) <==> (#[trigger] orig[v as int].count) > 0 by {
                assert(r.elem@ == root.elem@);
                assert(root.elem@.contains(v) <==> counts[v as int] > 0);
            }
        }
        r
    } else {
        proof {
            assert(!(model(root) is Leaf));
            assert(merge_all(models(lfin)) == model(root));
            assert forall|v: u8| #[trigger] leaf_count(root, v) == orig[v as int].count by {
                assert(counts[v as int] == orig[v as int].count);
            }
            assert forall|v: u8|
                root.elem@.contains(v) <==> (#[trigger] orig[v as int].count) > 0 by {
                assert(root.elem@.contains(v) <==> counts[v as int] > 0);
            }
        }
        root
    }
}

/// Builds the Huffman tree for `data`.
///
/// Counts how often each byte value occurs, makes one candidate leaf per
/// occurring value, and greedily merges the two least frequent candidates
/// until one tree remains.  The input length is bounded so that every
/// frequency fits the 4-byte counters of the serialized table.
pub fn build_tree(data: &Vec<u8>) -> (r: HuffmanTree)
    requires
        data@.len() < 0x1_0000_0000,
    ensures
        forall|v: u8| leaf_count(r, v) == freq(data@, v),
        forall|v: u8| r.elem@.contains(v) <==> freq(data@, v) > 0,
        data@.len() > 0 ==> wf(r) && !is_leaf_node(r),
        data@.len() == 0 ==> is_empty_node(r),
        model(r) == spec_build(freq_table(data@)),
{
    let mut counts: Vec<u64> = Vec::new();
    let mut j: usize = 0;
    while j < 256
        invariant
            counts@.len() == j,
            j <= 256,
            forall|k: int| 0 <= k < j ==> #[trigger] counts@[k] == 0,
        decreases 256 - j,
    {
        counts.push(0);
        j += 1;
    }
    proof {
        assert(data@.take(0) =~= Seq::<u8>::empty());
    }
    let mut i: usize = 0;
    while i < data.len()
        invariant
            counts@.len() == 256,
            i <= data@.len(),
            data@.len() < 0x1_0000_0000,
            forall|v: u8| #[trigger] counts@[v as int] == freq(data@.take(i as int), v),
        decreases data@.len() - i,
    {
        let b = data[i];
        let c = counts[b as usize];
        proof {
            lemma_freq_le_len(data@.take(i as int), b);
        }
        counts[b as usize] = c + 1;
        proof {
            let d1 = data@.take((i + 1) as int);
            assert(d1.drop_last() =~= data@.take(i as int));
            assert(d1.last() == data@[i as int]);
            assert forall|v: u8| #[trigger] counts@[v as int] == freq(d1, v) by {
                assert(freq(d1, v) == freq(data@.take(i as int), v) + if d1.last() == v {
                    1int
                } else {
                    0int
                });
            }
        }
        i += 1;
    }
    proof {
        assert(data@.take(data@.len() as int) =~= data@);
        assert forall|v: u8| 0 <= (#[trigger] counts@[v as int]) < 0x1_0000_0000 by {
            lemma_freq_le_len(data@, v);
        }
    }
    let nodes = leaf_nodes(&counts);
    let ghost nv = nodes@;
    let r = compile_nodes(nodes);
    proof {
        assert forall|v: u8| #[trigger] leaf_count(r, v) == freq(data@, v) by {
            assert(nv[v as int].count == counts@[v as int]);
        }
        assert forall|v: u8| r.elem@.contains(v) <==> (#[trigger] freq(data@, v)) > 0 by {
            assert(nv[v as int].count == counts@[v as int]);
        }
        if data@.len() > 0 {
            lemma_freq_positive(data@, 0);
            assert(nv[data@[0] as int].count > 0);
        } else {
            assert forall|j: int| 0 <= j < 256 implies (#[trigger] nv[j].count) == 0 by {
                assert(counts@[j] == freq(data@, j as u8));
            }
        }
        assert(Seq::new(256, |j: int| nv[j].count as int) =~= freq_table(data@)) by {
            assert forall|j: int| 0 <= j < 256 implies nv[j].count as int == freq_table(data@)[j] by {
                assert(counts@[j] == freq(data@, j as u8));
            }
        }
    }
    r
}

/// The count stored for symbol `v` in a 1024-byte frequency table:
/// 4 little-endian bytes at offset `v * 4`.
pub open spec fn table_count(table: Seq<u8>, v: u8) -> int
    recommends
        table.len() == 1024,
{
    table[v as int * 4] + table[v as int * 4 + 1] * 0x100 + table[v as int * 4 + 2] * 0x10000
        + table[v as int * 4 + 3] * 0x1000000
}

impl HuffmanTree {
    /// Writes the count of each leaf below `self` into the frequency table,
    /// 4 little-endian bytes at the offset of the leaf's byte value.
    #[verifier::rlimit(100)]
    #[verifier::spinoff_prover]
    fn serialize_internal(&self, result: &mut Vec<u8>)
        requires
            wf(*self) || is_empty_node(*self),
            old(result)@.len() == 1024,
            forall|v: u8| leaf_count(*self, v) < 0x1_0000_0000,
        ensures
            final(result)@.len() == 1024,
            forall|i: int|
                0 <= i < 1024 && !self.elem@.contains((i / 4) as u8) ==> final(result)@[i] == old(
                    result,
                )@[i],
            forall|v: u8|
                #[trigger] self.elem@.contains(v) ==> table_count(final(result)@, v) == leaf_count(
                    *self,
                    v,
                ),
        decreases *self,
    {
        match (&self.zero, &self.one) {
            (Option::None, Option::None) => {
                if self.elem.len() > 0 {
                    let v0 = self.elem[0];
                    let base = (v0 as usize) * 4;
                    let c = self.count;
                    proof {
                        assert(self.elem@.contains(v0));
                        assert(leaf_count(*self, v0) == c as int);
                        assert((c & 0xFF) < 256 && ((c >> 8) & 0xFF) < 256 && ((c >> 16) & 0xFF)
                            < 256 && ((c >> 24) & 0xFF) < 256) by (bit_vector);
                    }
                    result[base] = (c & 0xFF) as u8;
                    result[base + 1] = ((c >> 8) & 0xFF) as u8;
                    result[base + 2] = ((c >> 16) & 0xFF) as u8;
                    result[base + 3] = ((c >> 24) & 0xFF) as u8;
                    proof {
                        assert(c < 0x1_0000_0000 ==> (((c & 0xFF) as u8) as u64) + ((((c >> 8)
                            & 0xFF) as u8) as u64) * 0x100 + ((((c >> 16) & 0xFF) as u8) as u64)
                            * 0x10000 + ((((c >> 24) & 0xFF) as u8) as u64) * 0x1000000 == c)
                            by (bit_vector);
                        assert(table_count(result@, v0) == c as int);
                        assert forall|v: u8| #[trigger] self.elem@.contains(v) implies table_count(
                            result@,
                            v,
                        ) == leaf_count(*self, v) by {
                            assert(v == v0);
                        }
                    }
                }
            },
            (Option::Some(z), Option::None) => {
                proof {
                    assert forall|v: u8| leaf_count(**z, v) < 0x1_0000_0000 by {
                        assert(leaf_count(*self, v) == leaf_count(**z, v));
                    }
                }
                z.serialize_internal(result);
            },
            (Option::None, Option::Some(_)) => {
                proof {
                    assert(false);
                }
            },
            (Option::Some(z), Option::Some(o)) => {
                proof {
                    assert forall|v: u8| #[trigger] z.elem@.contains(v) implies !o.elem@.contains(
                        v,
                    ) by {
                        if o.elem@.contains(v) {
                            let i = choose|i: int| 0 <= i < z.elem@.len() && z.elem@[i] == v;
                            let jx = choose|j: int| 0 <= j < o.elem@.len() && o.elem@[j] == v;
                            assert(self.elem@[i] == v);
                            assert(self.elem@[z.elem@.len() + jx] == v);
                        }
                    }
                    assert forall|v: u8| leaf_count(**z, v) < 0x1_0000_0000 && leaf_count(**o, v)
                        < 0x1_0000_0000 by {
                        lemma_leaf_count_nonneg(**z, v);
                        lemma_leaf_count_nonneg(**o, v);
                        assert(leaf_count(*self, v) == leaf_count(**z, v) + leaf_count(**o, v));
                    }
                }
                z.serialize_internal(result);
                let ghost mid = result@;
                o.serialize_internal(result);
                proof {
                    assert forall|v: u8| #[trigger] self.elem@.contains(v) implies table_count(
                        final(result)@,
                        v,
                    ) == leaf_count(*self, v) by {
                        lemma_concat_contains(z.elem@, o.elem@, v);
                        assert(4 * (v as int) / 4 == v as int && (4 * (v as int) + 1) / 4
                            == v as int && (4 * (v as int) + 2) / 4 == v as int && (4 * (v as int)
                            + 3) / 4 == v as int);
                        if z.elem@.contains(v) {
                            assert(!o.elem@.contains(v));
                            lemma_leaf_count_absent(**o, v);
                            assert(table_count(mid, v) == leaf_count(**z, v));
                        } else {
                            assert(o.elem@.contains(v));
                            lemma_leaf_count_absent(**z, v);
                        }
                    }
                    assert forall|i: int|
                        0 <= i < 1024 && !self.elem@.contains(
                            (i / 4) as u8,
                        ) implies final(result)@[i] == old(result)@[i] by {
                        lemma_concat_contains(z.elem@, o.elem@, (i / 4) as u8);
                    }
                }
            },
        }
    }

    /// Serializes the frequency table of this tree: a 1024-byte buffer
    /// holding 256 little-endian 4-byte counts, indexed by byte value.
    pub fn serialize(&self) -> (r: Vec<u8>)
        requires
            wf(*self) || is_empty_node(*self),
            forall|v: u8| leaf_count(*self, v) < 0x1_0000_0000,
        ensures
            r@.len() == 1024,
            forall|v: u8| table_count(r@, v) == leaf_count(*self, v),
    {
        let mut out: Vec<u8> = Vec::new();
        let mut i: usize = 0;
        while i < 1024
            invariant
                out@.len() == i,
                i <= 1024,
                forall|k: int| 0 <= k < i ==> #[trigger] out@[k] == 0,
            decreases 1024 - i,
        {
            out.push(0);
            i += 1;
        }
        self.serialize_internal(&mut out);
        proof {
            assert forall|v: u8| table_count(out@, v) == leaf_count(*self, v) by {
                if !self.elem@.contains(v) {
                    assert(4 * (v as int) / 4 == v as int && (4 * (v as int) + 1) / 4
                        == v as int && (4 * (v as int) + 2) / 4 == v as int && (4 * (v as int) + 3)
                        / 4 == v as int);
                    assert(table_count(out@, v) == 0);
                    if wf(*self) {
                        lemma_leaf_count_absent(*self, v);
                    }
                }
            }
        }
        out
    }

    /// Rebuilds a tree from a serialized 1024-byte frequency table by
    /// re-running the same greedy merge that built the original tree.
    pub fn deserialize(data: Vec<u8>) -> (r: HuffmanTree)
        requires
            data@.len() == 1024,
        ensures
            forall|v: u8| leaf_count(r, v) == table_count(data@, v),
            forall|v: u8| r.elem@.contains(v) <==> table_count(data@, v) > 0,
            (exists|v: u8| table_count(data@, v) > 0) ==> wf(r) && !is_leaf_node(r),
            (forall|v: u8| table_count(data@, v) == 0) ==> is_empty_node(r),
            model(r) == spec_build(table_counts(data@)),
    {
        let mut counts: Vec<u64> = Vec::new();
        let mut i: usize = 0;
        while i < 256
            invariant
                data@.len() == 1024,
                counts@.len() == i,
                i <= 256,
                forall|k: int|
                    0 <= k < i ==> #[trigger] counts@[k] == table_count(data@, k as u8)
                        && counts@[k] < 0x1_0000_0000,
            decreases 256 - i,
        {
            let c: u64 = data[i * 4] as u64 + (data[i * 4 + 1] as u64) * 0x100 + (data[i * 4
                + 2] as u64) * 0x10000 + (data[i * 4 + 3] as u64) * 0x1000000;
            counts.push(c);
            i += 1;
        }
        let nodes = leaf_nodes(&counts);
        let ghost nv = nodes@;
        let r = compile_nodes(nodes);
        proof {
            assert forall|v: u8| #[trigger] leaf_count(r, v) == table_count(data@, v) by {
                assert(nv[v as int].count == counts@[v as int]);
            }
            assert forall|v: u8| r.elem@.contains(v) <==> (#[trigger] table_count(data@, v))
                > 0 by {
                assert(nv[v as int].count == counts@[v as int]);
            }
            if exists|v: u8| table_count(data@, v) > 0 {
                let v = choose|v: u8| table_count(data@, v) > 0;
                assert(nv[v as int].count > 0);
            }
            assert forall|j: int|
                0 <= j < 256 && (forall|v: u8| table_count(data@, v) == 0) implies (
            #[trigger] nv[j].count) == 0 by {
                assert(table_count(data@, j as u8) == 0);
            }
            assert(Seq::new(256, |j: int| nv[j].count as int) =~= table_counts(data@)) by {
                assert forall|j: int|
                    0 <= j < 256 implies nv[j].count as int == table_counts(data@)[j] by {
                    assert(counts@[j] == table_count(data@, j as u8));
                }
            }
        }
        r
    }
}

} // verus!
