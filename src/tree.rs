use vstd::prelude::*;
use crate::error::HuffmanError;
use crate::frequency::{FrequencyTable, ALPHABET_SIZE, sum_counts};

verus! {

/// A node of a Huffman tree. A leaf holds one symbol; an internal node holds the combined
/// weight of its two children and no symbol.
#[derive(Debug, PartialEq, Eq)]
pub enum HuffmanNode {
    Leaf { symbol: u8, weight: usize },
    Internal { weight: usize, left: Box<HuffmanNode>, right: Box<HuffmanNode> },
}

impl HuffmanNode {
    /// The weight stored in the node.
    pub open spec fn weight_of(&self) -> usize {
        match self {
            HuffmanNode::Leaf { weight, .. } => *weight,
            HuffmanNode::Internal { weight, .. } => *weight,
        }
    }

    /// The smallest symbol held by a leaf of the subtree: it breaks ties between equal weights.
    pub open spec fn min_symbol_of(&self) -> u8
        decreases self,
    {
        match self {
            HuffmanNode::Leaf { symbol, .. } => *symbol,
            HuffmanNode::Internal { left, right, .. } => {
                let a = left.min_symbol_of();
                let b = right.min_symbol_of();
                if a <= b {
                    a
                } else {
                    b
                }
            },
        }
    }

    /// How many leaves of the subtree hold `s`.
    pub open spec fn occurrences(&self, s: u8) -> nat
        decreases self,
    {
        match self {
            HuffmanNode::Leaf { symbol, .. } => if *symbol == s {
                1
            } else {
                0
            },
            HuffmanNode::Internal { left, right, .. } => left.occurrences(s) + right.occurrences(s),
        }
    }

    /// Whether some leaf holds `s`.
    pub open spec fn contains(&self, s: u8) -> bool {
        self.occurrences(s) > 0
    }

    /// No two leaves hold the same symbol.
    pub open spec fn wf(&self) -> bool {
        forall|s: u8| #[trigger] self.occurrences(s) <= 1
    }

    /// A leaf for `symbol` with weight `weight`.
    pub fn new(symbol: u8, weight: usize) -> (r: HuffmanNode)
        ensures
            r == (HuffmanNode::Leaf { symbol, weight }),
    {
        HuffmanNode::Leaf { symbol, weight }
    }

    /// The weight stored in the node.
    pub fn weight(&self) -> (r: usize)
        ensures
            r == self.weight_of(),
    {
        match self {
            HuffmanNode::Leaf { weight, .. } => *weight,
            HuffmanNode::Internal { weight, .. } => *weight,
        }
    }

    /// The smallest symbol in the subtree.
    pub fn min_symbol(&self) -> (r: u8)
        ensures
            r == self.min_symbol_of(),
        decreases self,
    {
        match self {
            HuffmanNode::Leaf { symbol, .. } => *symbol,
            HuffmanNode::Internal { left, right, .. } => {
                let a = left.min_symbol();
                let b = right.min_symbol();
                if a <= b {
                    a
                } else {
                    b
                }
            },
        }
    }
}

/// The smallest symbol of a subtree is held by one of its leaves.
pub proof fn lemma_min_symbol_occurs(t: HuffmanNode)
    ensures
        t.contains(t.min_symbol_of()),
    decreases t,
{
    if let HuffmanNode::Internal { left, right, .. } = t {
        lemma_min_symbol_occurs(*left);
        lemma_min_symbol_occurs(*right);
    }
}

/// The order in which the builder takes nodes: by weight, then by smallest symbol.
pub open spec fn key_lt(a: HuffmanNode, b: HuffmanNode) -> bool {
    ||| a.weight_of() < b.weight_of()
    ||| (a.weight_of() == b.weight_of() && a.min_symbol_of() < b.min_symbol_of())
}

/// `f` with `t` put before the first node that comes after it in key order.
pub open spec fn insert_by_key(f: Seq<HuffmanNode>, t: HuffmanNode) -> Seq<HuffmanNode>
    decreases f.len(),
{
    if f.len() == 0 {
        seq![t]
    } else if key_lt(t, f[0]) {
        seq![t] + f
    } else {
        seq![f[0]] + insert_by_key(f.drop_first(), t)
    }
}

/// The internal node with children `a` (left) and `b` (right).
pub open spec fn merge(a: HuffmanNode, b: HuffmanNode) -> HuffmanNode {
    HuffmanNode::Internal {
        weight: (a.weight_of() + b.weight_of()) as usize,
        left: Box::new(a),
        right: Box::new(b),
    }
}

/// Merges the two first nodes of a forest kept in key order, puts the result back in order,
/// and goes on until one node is left.
pub open spec fn merge_forest(f: Seq<HuffmanNode>) -> HuffmanNode
    decreases f.len(),
    via merge_forest_decreases
{
    if f.len() <= 1 {
        f[0]
    } else {
        merge_forest(insert_by_key(f.subrange(2, f.len() as int), merge(f[0], f[1])))
    }
}

#[via_fn]
proof fn merge_forest_decreases(f: Seq<HuffmanNode>) {
    if f.len() > 1 {
        lemma_insert_by_key(f.subrange(2, f.len() as int), merge(f[0], f[1]));
    }
}

/// A leaf for each symbol below `k` whose count is not zero, in key order.
pub open spec fn initial_forest(c: Seq<usize>, k: nat) -> Seq<HuffmanNode>
    decreases k,
{
    if k == 0 {
        Seq::empty()
    } else {
        let f = initial_forest(c, (k - 1) as nat);
        if c[k - 1] > 0 {
            insert_by_key(f, HuffmanNode::Leaf { symbol: (k - 1) as u8, weight: c[k - 1] })
        } else {
            f
        }
    }
}

/// The Huffman tree of a table of counts.
pub open spec fn huffman_tree(c: Seq<usize>) -> HuffmanNode {
    merge_forest(initial_forest(c, c.len()))
}

/// Some symbol has a count that is not zero.
pub open spec fn has_symbol(c: Seq<usize>) -> bool {
    exists|s: u8| #[trigger] c[s as int] > 0
}

/// Total weight of a forest.
pub open spec fn forest_weight(f: Seq<HuffmanNode>) -> nat
    decreases f.len(),
{
    if f.len() == 0 {
        0
    } else {
        f[0].weight_of() as nat + forest_weight(f.drop_first())
    }
}

/// How many leaves of a forest hold `s`.
pub open spec fn forest_occurrences(f: Seq<HuffmanNode>, s: u8) -> nat
    decreases f.len(),
{
    if f.len() == 0 {
        0
    } else {
        f[0].occurrences(s) + forest_occurrences(f.drop_first(), s)
    }
}

/// Inserting adds one node, and its weight and leaves to those of the forest.
pub proof fn lemma_insert_by_key(f: Seq<HuffmanNode>, t: HuffmanNode)
    ensures
        insert_by_key(f, t).len() == f.len() + 1,
        forest_weight(insert_by_key(f, t)) == forest_weight(f) + t.weight_of(),
        forall|s: u8| #[trigger] forest_occurrences(insert_by_key(f, t), s)
            == forest_occurrences(f, s) + t.occurrences(s),
    decreases f.len(),
{
    let g = insert_by_key(f, t);
    if f.len() == 0 || key_lt(t, f[0]) {
        assert(g.drop_first() =~= f);
        assert(g[0] == t);
    } else {
        lemma_insert_by_key(f.drop_first(), t);
        assert(g.drop_first() =~= insert_by_key(f.drop_first(), t));
        assert(g[0] == f[0]);
    }
    assert forall|s: u8| #[trigger] forest_occurrences(g, s)
        == forest_occurrences(f, s) + t.occurrences(s) by {
        if f.len() > 0 && !key_lt(t, f[0]) {
            assert(forest_occurrences(g.drop_first(), s) == forest_occurrences(f.drop_first(), s)
                + t.occurrences(s));
        }
    }
}

/// The first two nodes of a forest, and the rest.
pub proof fn lemma_forest_split(f: Seq<HuffmanNode>)
    requires
        f.len() >= 2,
    ensures
        forest_weight(f) == f[0].weight_of() + f[1].weight_of() + forest_weight(
            f.subrange(2, f.len() as int),
        ),
        forall|s: u8| #[trigger] forest_occurrences(f, s)
            == f[0].occurrences(s) + f[1].occurrences(s) + forest_occurrences(
            f.subrange(2, f.len() as int),
            s,
        ),
{
    let g = f.drop_first();
    assert(g.drop_first() =~= f.subrange(2, f.len() as int));
    assert(g[0] == f[1]);
    assert(forest_weight(g) == g[0].weight_of() + forest_weight(g.drop_first()));
    assert forall|s: u8| #[trigger] forest_occurrences(f, s)
        == f[0].occurrences(s) + f[1].occurrences(s) + forest_occurrences(
        f.subrange(2, f.len() as int),
        s,
    ) by {
        assert(forest_occurrences(g, s) == g[0].occurrences(s) + forest_occurrences(g.drop_first(), s));
    }
}

/// The tree that merging builds holds exactly the leaves of the forest, and the forest's weight.
pub proof fn lemma_merge_forest(f: Seq<HuffmanNode>)
    requires
        f.len() >= 1,
        forest_weight(f) <= usize::MAX,
    ensures
        forall|s: u8| #[trigger] merge_forest(f).occurrences(s) == forest_occurrences(f, s),
        merge_forest(f).weight_of() == forest_weight(f),
    decreases f.len(),
{
    if f.len() == 1 {
        let e = f.drop_first();
        assert(e.len() == 0);
        assert(forest_weight(e) == 0);
        assert(merge_forest(f) == f[0]);
        assert forall|s: u8| #[trigger] merge_forest(f).occurrences(s) == forest_occurrences(f, s) by {
            assert(forest_occurrences(e, s) == 0);
            assert(forest_occurrences(f, s) == f[0].occurrences(s) + forest_occurrences(e, s));
        }
    } else {
        let m = merge(f[0], f[1]);
        let rest = f.subrange(2, f.len() as int);
        lemma_forest_split(f);
        lemma_insert_by_key(rest, m);
        lemma_merge_forest(insert_by_key(rest, m));
        assert(merge_forest(f) == merge_forest(insert_by_key(rest, m)));
        let g = insert_by_key(rest, m);
        assert forall|s: u8| #[trigger] merge_forest(f).occurrences(s) == forest_occurrences(f, s) by {
            assert(m.occurrences(s) == f[0].occurrences(s) + f[1].occurrences(s));
            assert(merge_forest(g).occurrences(s) == forest_occurrences(g, s));
            assert(forest_occurrences(g, s) == forest_occurrences(rest, s) + m.occurrences(s));
        }
    }
}

/// The initial forest holds one leaf for each symbol below `k` with a count, and their weight.
pub proof fn lemma_initial_forest(c: Seq<usize>, k: nat)
    requires
        k <= c.len() <= ALPHABET_SIZE,
    ensures
        forall|s: u8| #[trigger] forest_occurrences(initial_forest(c, k), s)
            == if (s as nat) < k && c[s as int] > 0 {
            1nat
        } else {
            0nat
        },
        forest_weight(initial_forest(c, k)) == sum_counts(c.take(k as int)),
    decreases k,
{
    if k == 0 {
        assert(c.take(0).len() == 0);
    } else {
        let f = initial_forest(c, (k - 1) as nat);
        lemma_initial_forest(c, (k - 1) as nat);
        assert(c.take(k as int).drop_last() =~= c.take(k - 1));
        if c[k - 1] > 0 {
            let leaf = HuffmanNode::Leaf { symbol: (k - 1) as u8, weight: c[k - 1] };
            lemma_insert_by_key(f, leaf);
            assert forall|s: u8| #[trigger] forest_occurrences(initial_forest(c, k), s)
                == if (s as nat) < k && c[s as int] > 0 {
                1nat
            } else {
                0nat
            } by {
                assert(leaf.occurrences(s) == if s as nat == k - 1 { 1nat } else { 0nat });
            }
        }
    }
}

/// The Huffman tree of a table with a symbol holds each symbol with a count in exactly one leaf,
/// and no other symbol.
pub proof fn lemma_huffman_tree_symbols(c: Seq<usize>)
    requires
        c.len() == ALPHABET_SIZE,
        sum_counts(c) <= usize::MAX,
        has_symbol(c),
    ensures
        huffman_tree(c).wf(),
        forall|s: u8| #[trigger] huffman_tree(c).contains(s) <==> c[s as int] > 0,
        forall|s: u8| #[trigger] huffman_tree(c).occurrences(s) == if c[s as int] > 0 {
            1nat
        } else {
            0nat
        },
{
    let f = initial_forest(c, c.len());
    lemma_initial_forest(c, c.len());
    assert(c.take(c.len() as int) =~= c);
    let s0 = choose|s: u8| #[trigger] c[s as int] > 0;
    assert(forest_occurrences(f, s0) == 1);
    lemma_merge_forest(f);
}

/// Where `t` goes in a forest kept in key order: before the first node that comes after it.
fn insert_position(f: &Vec<HuffmanNode>, t: &HuffmanNode) -> (i: usize)
    ensures
        i <= f@.len(),
        forall|j: int| 0 <= j < i ==> !key_lt(*t, #[trigger] f@[j]),
        i < f@.len() ==> key_lt(*t, f@[i as int]),
{
    let tw = t.weight();
    let tm = t.min_symbol();
    let mut i: usize = 0;
    while i < f.len()
        invariant
            i <= f@.len(),
            tw == t.weight_of(),
            tm == t.min_symbol_of(),
            forall|j: int| 0 <= j < i ==> !key_lt(*t, #[trigger] f@[j]),
        decreases f@.len() - i,
    {
        let w = f[i].weight();
        let m = f[i].min_symbol();
        if tw < w || (tw == w && tm < m) {
            return i;
        }
        i = i + 1;
    }
    i
}

/// Inserting at the position that the key order gives is `insert_by_key`.
proof fn lemma_insert_at_position(f: Seq<HuffmanNode>, t: HuffmanNode, i: int)
    requires
        0 <= i <= f.len(),
        forall|j: int| 0 <= j < i ==> !key_lt(t, #[trigger] f[j]),
        i < f.len() ==> key_lt(t, f[i]),
    ensures
        insert_by_key(f, t) == f.insert(i, t),
    decreases f.len(),
{
    if i == 0 {
        assert(f.insert(0, t) =~= seq![t] + f);
    } else {
        assert(!key_lt(t, f[0]));
        let g = f.drop_first();
        assert forall|j: int| 0 <= j < i - 1 implies !key_lt(t, #[trigger] g[j]) by {
            assert(g[j] == f[j + 1]);
        }
        lemma_insert_at_position(g, t, i - 1);
        assert(f.insert(i, t) =~= seq![f[0]] + g.insert(i - 1, t));
    }
}

/// Puts `t` into a forest kept in key order.
fn insert_node(f: &mut Vec<HuffmanNode>, t: HuffmanNode)
    ensures
        final(f)@ == insert_by_key(old(f)@, t),
{
    let i = insert_position(f, &t);
    proof {
        lemma_insert_at_position(f@, t, i as int);
    }
    f.insert(i, t);
}

/// Builds the Huffman tree of `freqs`: a leaf for each symbol with a count, then, while more
/// than one node is left, the two first nodes in (weight, smallest symbol) order become the
/// left and the right child of a new node. Fails when no symbol has a count.
pub fn build_tree(freqs: &FrequencyTable) -> (r: Result<HuffmanNode, HuffmanError>)
    requires
        freqs.wf(),
    ensures
        has_symbol(freqs@) ==> r == Ok::<HuffmanNode, HuffmanError>(huffman_tree(freqs@)),
        !has_symbol(freqs@) ==> r == Err::<HuffmanNode, HuffmanError>(HuffmanError::EmptyInput),
        r matches Ok(t) ==> t.wf() && forall|s: u8| #[trigger] t.contains(s) <==> freqs@[s as int] > 0,
{
    let ghost c = freqs@;
    let mut forest: Vec<HuffmanNode> = Vec::new();
    let mut k: usize = 0;
    proof {
        assert(c.take(0).len() == 0);
    }
    while k < ALPHABET_SIZE
        invariant
            freqs.wf(),
            c == freqs@,
            k <= ALPHABET_SIZE,
            forest@ == initial_forest(c, k as nat),
            forest_weight(forest@) == sum_counts(c.take(k as int)),
        decreases ALPHABET_SIZE - k,
    {
        let n = freqs.count(k as u8);
        proof {
            lemma_initial_forest(c, k as nat + 1);
        }
        if n > 0 {
            insert_node(&mut forest, HuffmanNode::new(k as u8, n));
        }
        k = k + 1;
    }
    proof {
        lemma_initial_forest(c, c.len());
        assert(c.take(c.len() as int) =~= c);
        crate::frequency::lemma_sum_prefix_le(c, c.len() as int);
    }
    if forest.len() == 0 {
        proof {
            assert forall|s: u8| !(#[trigger] c[s as int] > 0) by {
                assert(forest_occurrences(forest@, s) == 0);
            }
        }
        return Err(HuffmanError::EmptyInput);
    }
    proof {
        lemma_min_symbol_occurs(forest@[0]);
        let m = forest@[0].min_symbol_of();
        assert(forest_occurrences(forest@, m) >= 1);
        assert(c[m as int] > 0);
    }
    let ghost total = forest_weight(forest@);
    while forest.len() > 1
        invariant
            forest@.len() >= 1,
            forest_weight(forest@) == total,
            total <= usize::MAX,
            merge_forest(forest@) == huffman_tree(c),
        decreases forest@.len(),
    {
        let ghost before = forest@;
        proof {
            lemma_forest_split(before);
        }
        let a = forest.remove(0);
        let b = forest.remove(0);
        assert(forest@ =~= before.subrange(2, before.len() as int));
        let w = a.weight() + b.weight();
        let m = HuffmanNode::Internal { weight: w, left: Box::new(a), right: Box::new(b) };
        proof {
            lemma_insert_by_key(forest@, m);
            assert(m == merge(before[0], before[1]));
        }
        insert_node(&mut forest, m);
    }
    proof {
        lemma_huffman_tree_symbols(c);
    }
    let root = forest.remove(0);
    Ok(root)
}

/// Building is deterministic: two inputs with the same symbols, in whatever order, have the same
/// table of counts, hence the same tree and the same path for every symbol.
pub proof fn lemma_build_deterministic(a: Seq<u8>, b: Seq<u8>, ca: Seq<usize>, cb: Seq<usize>)
    requires
        a.to_multiset() == b.to_multiset(),
        ca.len() == ALPHABET_SIZE,
        cb.len() == ALPHABET_SIZE,
        forall|s: u8| #[trigger] ca[s as int] == a.to_multiset().count(s),
        forall|s: u8| #[trigger] cb[s as int] == b.to_multiset().count(s),
    ensures
        ca == cb,
        huffman_tree(ca) == huffman_tree(cb),
{
    assert forall|i: int| 0 <= i < ALPHABET_SIZE implies ca[i] == cb[i] by {
        assert(ca[(i as u8) as int] == cb[(i as u8) as int]);
    }
    assert(ca =~= cb);
}

/// No node of `f` comes before an earlier one in key order.
pub open spec fn sorted_by_key(f: Seq<HuffmanNode>) -> bool {
    forall|i: int, j: int| 0 <= i < j < f.len() ==> !key_lt(#[trigger] f[j], #[trigger] f[i])
}

/// Inserting by key keeps a forest sorted.
pub proof fn lemma_insert_sorted(f: Seq<HuffmanNode>, t: HuffmanNode)
    requires
        sorted_by_key(f),
    ensures
        sorted_by_key(insert_by_key(f, t)),
{
    let i = choose_position(f, t);
    lemma_insert_at_position(f, t, i);
    let g = f.insert(i, t);
    assert forall|a: int, b: int| 0 <= a < b < g.len() implies !key_lt(#[trigger] g[b], #[trigger] g[a]) by {
        if b < i {
            assert(g[a] == f[a] && g[b] == f[b]);
        } else if b == i {
            assert(g[a] == f[a] && g[b] == t);
        } else if a < i {
            assert(g[a] == f[a] && g[b] == f[b - 1]);
            assert(!key_lt(t, f[a]));
            assert(!key_lt(f[b - 1], f[i]) || b - 1 == i);
        } else if a == i {
            assert(g[a] == t && g[b] == f[b - 1]);
            assert(key_lt(t, f[i]));
            assert(!key_lt(f[b - 1], f[i]) || b - 1 == i);
        } else {
            assert(g[a] == f[a - 1] && g[b] == f[b - 1]);
        }
    }
}

/// The position at which `insert_by_key` puts `t`: before the first node that comes after it.
proof fn choose_position(f: Seq<HuffmanNode>, t: HuffmanNode) -> (i: int)
    ensures
        0 <= i <= f.len(),
        forall|j: int| 0 <= j < i ==> !key_lt(t, #[trigger] f[j]),
        i < f.len() ==> key_lt(t, f[i]),
    decreases f.len(),
{
    if f.len() == 0 || key_lt(t, f[0]) {
        0
    } else {
        let k = choose_position(f.drop_first(), t);
        assert forall|j: int| 0 <= j < k + 1 implies !key_lt(t, #[trigger] f[j]) by {
            if j > 0 {
                assert(f[j] == f.drop_first()[j - 1]);
            }
        }
        if k + 1 < f.len() {
            assert(f[k + 1] == f.drop_first()[k]);
        }
        k + 1
    }
}

/// The initial forest is sorted by key.
pub proof fn lemma_initial_forest_sorted(c: Seq<usize>, k: nat)
    requires
        k <= c.len(),
    ensures
        sorted_by_key(initial_forest(c, k)),
    decreases k,
{
    if k > 0 {
        lemma_initial_forest_sorted(c, (k - 1) as nat);
        if c[k - 1] > 0 {
            lemma_insert_sorted(
                initial_forest(c, (k - 1) as nat),
                HuffmanNode::Leaf { symbol: (k - 1) as u8, weight: c[k - 1] },
            );
        }
    }
}

/// Greedy step of the builder: in a sorted forest the first two nodes weigh no more than any
/// other node, so each merge takes two lightest nodes; and the forest after the merge is sorted
/// again.
pub proof fn lemma_merge_takes_lightest(f: Seq<HuffmanNode>)
    requires
        sorted_by_key(f),
        f.len() >= 2,
    ensures
        forall|j: int| 1 <= j < f.len() ==> f[0].weight_of() <= #[trigger] f[j].weight_of(),
        forall|j: int| 2 <= j < f.len() ==> f[1].weight_of() <= #[trigger] f[j].weight_of(),
        sorted_by_key(insert_by_key(f.subrange(2, f.len() as int), merge(f[0], f[1]))),
{
    assert forall|j: int| 1 <= j < f.len() implies f[0].weight_of() <= #[trigger] f[j].weight_of() by {
        assert(!key_lt(f[j], f[0]));
    }
    assert forall|j: int| 2 <= j < f.len() implies f[1].weight_of() <= #[trigger] f[j].weight_of() by {
        assert(!key_lt(f[j], f[1]));
    }
    let rest = f.subrange(2, f.len() as int);
    assert forall|a: int, b: int| 0 <= a < b < rest.len() implies !key_lt(#[trigger] rest[b], #[trigger] rest[a]) by {
        assert(rest[a] == f[a + 2] && rest[b] == f[b + 2]);
    }
    lemma_insert_sorted(rest, merge(f[0], f[1]));
}

} // verus!
