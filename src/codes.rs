use vstd::prelude::*;
use crate::error::HuffmanError;
use crate::frequency::ALPHABET_SIZE;
use crate::tree::HuffmanNode;

verus! {

/// The path from `t` down to the first leaf that holds `s`, as bits: 0 to go left, 1 to go right.
pub open spec fn path_to(t: HuffmanNode, s: u8) -> Option<Seq<u8>>
    decreases t,
{
    match t {
        HuffmanNode::Leaf { symbol, .. } => if symbol == s {
            Some(Seq::empty())
        } else {
            None
        },
        HuffmanNode::Internal { left, right, .. } => match path_to(*left, s) {
            Some(p) => Some(seq![0u8] + p),
            None => match path_to(*right, s) {
                Some(p) => Some(seq![1u8] + p),
                None => None,
            },
        },
    }
}

/// The code of `s` in the tree `t`: its path from the root, or the single bit 0 when the tree is
/// one leaf; empty when no leaf holds `s`.
pub open spec fn code_of(t: HuffmanNode, s: u8) -> Seq<u8> {
    match t {
        HuffmanNode::Leaf { symbol, .. } => if symbol == s {
            seq![0u8]
        } else {
            Seq::empty()
        },
        HuffmanNode::Internal { .. } => match path_to(t, s) {
            Some(p) => p,
            None => Seq::empty(),
        },
    }
}

/// The code of every symbol in the tree `t`.
pub open spec fn code_table(t: HuffmanNode) -> Seq<Seq<u8>> {
    Seq::new(ALPHABET_SIZE as nat, |s: int| code_of(t, s as u8))
}

/// `a` is a prefix of `b`.
pub open spec fn is_prefix(a: Seq<u8>, b: Seq<u8>) -> bool {
    a.len() <= b.len() && b.take(a.len() as int) == a
}

/// The concatenation of the codes of the symbols of `input`, in order.
pub open spec fn encoding(input: Seq<u8>, table: Seq<Seq<u8>>) -> Seq<u8>
    decreases input.len(),
{
    if input.len() == 0 {
        Seq::empty()
    } else {
        table[input[0] as int] + encoding(input.drop_first(), table)
    }
}

/// Every symbol of `input` has a code in `table`.
pub open spec fn covers(table: Seq<Seq<u8>>, input: Seq<u8>) -> bool {
    forall|i: int| 0 <= i < input.len() ==> #[trigger] table[input[i] as int].len() > 0
}

/// `r` with `p` put in front of its symbols, or its error.
pub open spec fn prepend(p: Seq<u8>, r: Result<Seq<u8>, HuffmanError>) -> Result<Seq<u8>, HuffmanError> {
    match r {
        Ok(x) => Ok(p + x),
        Err(e) => Err(e),
    }
}

/// Decoding of `bits` from node `cur` of the tree `root`; `at_root` tells whether `cur` is the
/// root itself. Each bit moves to the left (0) or the right (1) child; reaching a leaf emits its
/// symbol and goes back to the root. A tree that is a single leaf reads each bit 0 as its symbol.
pub open spec fn decode_from(root: HuffmanNode, cur: HuffmanNode, at_root: bool, bits: Seq<u8>) -> Result<
    Seq<u8>,
    HuffmanError,
>
    decreases bits.len(),
{
    if bits.len() == 0 {
        if at_root {
            Ok(Seq::empty())
        } else {
            Err(HuffmanError::TruncatedStream)
        }
    } else {
        let b = bits[0];
        let rest = bits.drop_first();
        match cur {
            HuffmanNode::Leaf { symbol, .. } => if b == 0 {
                prepend(seq![symbol], decode_from(root, root, true, rest))
            } else {
                Err(HuffmanError::CorruptStream)
            },
            HuffmanNode::Internal { left, right, .. } => if b > 1 {
                Err(HuffmanError::CorruptStream)
            } else {
                let next = if b == 0 {
                    *left
                } else {
                    *right
                };
                match next {
                    HuffmanNode::Leaf { symbol, .. } => prepend(
                        seq![symbol],
                        decode_from(root, root, true, rest),
                    ),
                    HuffmanNode::Internal { .. } => decode_from(root, next, false, rest),
                }
            },
        }
    }
}

/// The symbols that `bits` decode to with the tree `root`, or the error that stops decoding.
pub open spec fn decoding(bits: Seq<u8>, root: HuffmanNode) -> Result<Seq<u8>, HuffmanError> {
    decode_from(root, root, true, bits)
}

/// A path to `s` exists exactly when some leaf holds `s`; below an internal node it is not empty.
pub proof fn lemma_path_to(t: HuffmanNode, s: u8)
    ensures
        path_to(t, s) is Some <==> t.contains(s),
        (path_to(t, s) is Some && t is Internal) ==> path_to(t, s).unwrap().len() > 0,
    decreases t,
{
    if let HuffmanNode::Internal { left, right, .. } = t {
        lemma_path_to(*left, s);
        lemma_path_to(*right, s);
    }
}

/// A symbol has a code exactly when the tree holds it.
pub proof fn lemma_code_of_nonempty(t: HuffmanNode, s: u8)
    ensures
        code_of(t, s).len() > 0 <==> t.contains(s),
{
    lemma_path_to(t, s);
}

/// Following the path to `s` from an internal node `t` emits `s` and goes back to the root.
pub proof fn lemma_decode_path(root: HuffmanNode, t: HuffmanNode, at_root: bool, s: u8, rest: Seq<u8>)
    requires
        t is Internal,
        t.contains(s),
    ensures
        decode_from(root, t, at_root, path_to(t, s).unwrap() + rest) == prepend(
            seq![s],
            decoding(rest, root),
        ),
    decreases t,
{
    lemma_path_to(t, s);
    if let HuffmanNode::Internal { left, right, .. } = t {
        lemma_path_to(*left, s);
        lemma_path_to(*right, s);
        let p = path_to(t, s).unwrap();
        let bits = p + rest;
        let child = if left.contains(s) {
            *left
        } else {
            *right
        };
        let q = path_to(child, s).unwrap();
        assert(bits.drop_first() =~= q + rest);
        match child {
            HuffmanNode::Leaf { .. } => {
                assert(q.len() == 0);
                assert(q + rest =~= rest);
            },
            HuffmanNode::Internal { .. } => {
                lemma_decode_path(root, child, false, s, rest);
            },
        }
    }
}

/// Decoding the code of a symbol that the tree holds, then more bits, emits that symbol first.
pub proof fn lemma_decode_code(root: HuffmanNode, s: u8, rest: Seq<u8>)
    requires
        root.contains(s),
    ensures
        decoding(code_of(root, s) + rest, root) == prepend(seq![s], decoding(rest, root)),
{
    match root {
        HuffmanNode::Leaf { .. } => {
            assert((code_of(root, s) + rest).drop_first() =~= rest);
        },
        HuffmanNode::Internal { .. } => {
            lemma_path_to(root, s);
            lemma_decode_path(root, root, true, s, rest);
        },
    }
}

/// Decoding the encoding of `input` with the codes of a tree that holds all its symbols gives
/// `input` back.
pub proof fn lemma_decode_encoding(root: HuffmanNode, input: Seq<u8>)
    requires
        forall|i: int| 0 <= i < input.len() ==> root.contains(#[trigger] input[i]),
    ensures
        decoding(encoding(input, code_table(root)), root) == Ok::<Seq<u8>, HuffmanError>(input),
    decreases input.len(),
{
    if input.len() == 0 {
        assert(input =~= Seq::<u8>::empty());
        assert(encoding(input, code_table(root)) == Seq::<u8>::empty());
    } else {
        let rest = input.drop_first();
        assert(root.contains(input[0]));
        assert forall|i: int| 0 <= i < rest.len() implies root.contains(#[trigger] rest[i]) by {
            assert(rest[i] == input[i + 1]);
        }
        lemma_decode_encoding(root, rest);
        assert(code_table(root)[input[0] as int] == code_of(root, input[0]));
        lemma_decode_code(root, input[0], encoding(rest, code_table(root)));
        assert(seq![input[0]] + rest =~= input);
        assert(encoding(input, code_table(root)) == code_of(root, input[0]) + encoding(
            rest,
            code_table(root),
        ));
    }
}

/// Appending one symbol to the input appends its code to the encoding.
pub proof fn lemma_encoding_push(input: Seq<u8>, table: Seq<Seq<u8>>, s: u8)
    ensures
        encoding(input.push(s), table) == encoding(input, table) + table[s as int],
    decreases input.len(),
{
    if input.len() == 0 {
        assert(input.push(s).drop_first() =~= Seq::<u8>::empty());
        assert(encoding(Seq::<u8>::empty(), table) == Seq::<u8>::empty());
        assert(table[s as int] + Seq::<u8>::empty() =~= table[s as int]);
        assert(Seq::<u8>::empty() + table[s as int] =~= table[s as int]);
    } else {
        assert(input.push(s).drop_first() =~= input.drop_first().push(s));
        lemma_encoding_push(input.drop_first(), table, s);
        assert(table[input[0] as int] + (encoding(input.drop_first(), table) + table[s as int])
            =~= (table[input[0] as int] + encoding(input.drop_first(), table)) + table[s as int]);
    }
}

/// Putting `p` in front, then one symbol more, is putting `p` with that symbol in front.
proof fn lemma_prepend_push(p: Seq<u8>, s: u8, r: Result<Seq<u8>, HuffmanError>)
    ensures
        prepend(p, prepend(seq![s], r)) == prepend(p.push(s), r),
{
    if let Ok(x) = r {
        assert(p + (seq![s] + x) =~= p.push(s) + x);
    }
}

/// The code of each symbol: an empty code marks a symbol that has none.
pub struct CodeTable {
    codes: Vec<Vec<u8>>,
}

impl View for CodeTable {
    type V = Seq<Seq<u8>>;

    closed spec fn view(&self) -> Seq<Seq<u8>> {
        Seq::new(self.codes@.len(), |i: int| self.codes@[i]@)
    }
}

impl CodeTable {
    /// The code of `symbol`; empty when it has none.
    pub fn code(&self, symbol: u8) -> (r: &Vec<u8>)
        requires
            self@.len() == ALPHABET_SIZE,
        ensures
            r@ == self@[symbol as int],
    {
        &self.codes[symbol as usize]
    }
}

/// A copy of `bits`.
fn copy_bits(bits: &Vec<u8>) -> (r: Vec<u8>)
    ensures
        r@ == bits@,
{
    let mut r: Vec<u8> = Vec::new();
    let mut i: usize = 0;
    while i < bits.len()
        invariant
            i <= bits@.len(),
            r@ == bits@.take(i as int),
        decreases bits@.len() - i,
    {
        assert(bits@.take(i as int + 1) =~= bits@.take(i as int).push(bits@[i as int]));
        r.push(bits[i]);
        i = i + 1;
    }
    assert(bits@.take(bits@.len() as int) =~= bits@);
    r
}

/// Records, for each leaf below `node`, the bits of `code` followed by the path from `node` to
/// that leaf as the code of its symbol; leaves the other codes as they were.
pub fn traverse(node: &HuffmanNode, code: &mut Vec<u8>, codes: &mut Vec<Vec<u8>>)
    requires
        node.wf(),
        old(codes)@.len() == ALPHABET_SIZE,
    ensures
        final(code)@ == old(code)@,
        final(codes)@.len() == ALPHABET_SIZE,
        forall|s: u8| #[trigger] final(codes)@[s as int]@ == if node.contains(s) {
            old(code)@ + path_to(*node, s).unwrap()
        } else {
            old(codes)@[s as int]@
        },
    decreases node,
{
    match node {
        HuffmanNode::Leaf { symbol, .. } => {
            let c = copy_bits(code);
            codes.set(*symbol as usize, c);
            assert forall|s: u8| #[trigger] codes@[s as int]@ == if node.contains(s) {
                old(code)@ + path_to(*node, s).unwrap()
            } else {
                old(codes)@[s as int]@
            } by {
                if s == *symbol {
                    assert(old(code)@ + Seq::<u8>::empty() =~= old(code)@);
                }
            }
        },
        HuffmanNode::Internal { left, right, .. } => {
            let ghost c0 = code@;
            let ghost codes0 = codes@;
            assert forall|s: u8| #[trigger] left.occurrences(s) <= 1 by {
                assert(node.occurrences(s) <= 1);
            }
            assert forall|s: u8| #[trigger] right.occurrences(s) <= 1 by {
                assert(node.occurrences(s) <= 1);
            }
            code.push(0);
            traverse(left, code, codes);
            let ghost codes1 = codes@;
            code.pop();
            assert(code@ =~= c0);
            code.push(1);
            traverse(right, code, codes);
            code.pop();
            assert(code@ =~= c0);
            assert forall|s: u8| #[trigger] codes@[s as int]@ == if node.contains(s) {
                c0 + path_to(*node, s).unwrap()
            } else {
                codes0[s as int]@
            } by {
                lemma_path_to(**left, s);
                lemma_path_to(**right, s);
                assert(node.occurrences(s) <= 1);
                if left.contains(s) {
                    let p = path_to(**left, s).unwrap();
                    assert(c0.push(0) + p =~= c0 + (seq![0u8] + p));
                } else if right.contains(s) {
                    let p = path_to(**right, s).unwrap();
                    assert(c0.push(1) + p =~= c0 + (seq![1u8] + p));
                }
            }
        },
    }
}

/// The code of every symbol of the tree `root`: the path from the root to its leaf, 0 for each
/// step to the left and 1 for each step to the right; a tree that is a single leaf gives its
/// symbol the code 0. A symbol that the tree does not hold gets the empty code.
pub fn generate_huffman_codes(root: &HuffmanNode) -> (r: CodeTable)
    requires
        root.wf(),
    ensures
        r@ == code_table(*root),
{
    let mut codes: Vec<Vec<u8>> = Vec::new();
    let mut k: usize = 0;
    while k < ALPHABET_SIZE
        invariant
            k <= ALPHABET_SIZE,
            codes@.len() == k,
            forall|j: int| 0 <= j < k ==> (#[trigger] codes@[j])@.len() == 0,
        decreases ALPHABET_SIZE - k,
    {
        codes.push(Vec::new());
        k = k + 1;
    }
    match root {
        HuffmanNode::Leaf { symbol, .. } => {
            let mut c: Vec<u8> = Vec::new();
            c.push(0);
            codes.set(*symbol as usize, c);
        },
        HuffmanNode::Internal { .. } => {
            let mut code: Vec<u8> = Vec::new();
            traverse(root, &mut code, &mut codes);
            proof {
                assert forall|s: u8| #[trigger] codes@[s as int]@ == code_of(*root, s) by {
                    lemma_path_to(*root, s);
                    if root.contains(s) {
                        assert(Seq::<u8>::empty() + path_to(*root, s).unwrap() =~= path_to(
                            *root,
                            s,
                        ).unwrap());
                    }
                }
            }
        },
    }
    let r = CodeTable { codes };
    assert forall|i: int| 0 <= i < ALPHABET_SIZE implies #[trigger] r@[i] == code_table(*root)[i] by {
        assert(codes@[(i as u8) as int]@ == code_of(*root, i as u8));
    }
    assert(r@ =~= code_table(*root));
    r
}

/// The concatenation of the codes of the symbols of `input`. Fails when a symbol of `input`
/// has no code in `codes`.
pub fn encode(input: &[u8], codes: &CodeTable) -> (r: Result<Vec<u8>, HuffmanError>)
    requires
        codes@.len() == ALPHABET_SIZE,
    ensures
        covers(codes@, input@) ==> (r matches Ok(v) && v@ == encoding(input@, codes@)),
        !covers(codes@, input@) ==> r == Err::<Vec<u8>, HuffmanError>(HuffmanError::UnknownSymbol),
{
    let mut out: Vec<u8> = Vec::new();
    let mut i: usize = 0;
    assert(input@.take(0) =~= Seq::<u8>::empty());
    while i < input.len()
        invariant
            codes@.len() == ALPHABET_SIZE,
            i <= input@.len(),
            out@ == encoding(input@.take(i as int), codes@),
            forall|j: int| 0 <= j < i ==> #[trigger] codes@[input@[j] as int].len() > 0,
        decreases input@.len() - i,
    {
        let s = input[i];
        let c = codes.code(s);
        if c.len() == 0 {
            return Err(HuffmanError::UnknownSymbol);
        }
        proof {
            assert(input@.take(i as int + 1) =~= input@.take(i as int).push(s));
            lemma_encoding_push(input@.take(i as int), codes@, s);
        }
        let mut j: usize = 0;
        let ghost base = out@;
        while j < c.len()
            invariant
                j <= c@.len(),
                out@ == base + c@.take(j as int),
            decreases c@.len() - j,
        {
            assert(c@.take(j as int + 1) =~= c@.take(j as int).push(c@[j as int]));
            assert(base + c@.take(j as int + 1) =~= (base + c@.take(j as int)).push(c@[j as int]));
            out.push(c[j]);
            j = j + 1;
        }
        assert(c@.take(c@.len() as int) =~= c@);
        i = i + 1;
    }
    assert(input@.take(input@.len() as int) =~= input@);
    Ok(out)
}

/// Decodes `bits` with the tree `root`, starting at the root: 0 goes to the left child, 1 to
/// the right one, and a leaf emits its symbol and goes back to the root. Fails with
/// `CorruptStream` on a bit that the tree cannot follow, and with `TruncatedStream` when the
/// bits end in the middle of a code.
pub fn decode(bits: &[u8], root: &HuffmanNode) -> (r: Result<Vec<u8>, HuffmanError>)
    ensures
        match r {
            Ok(v) => decoding(bits@, *root) == Ok::<Seq<u8>, HuffmanError>(v@),
            Err(e) => decoding(bits@, *root) == Err::<Seq<u8>, HuffmanError>(e),
        },
{
    let mut out: Vec<u8> = Vec::new();
    let mut cur: &HuffmanNode = root;
    let mut at_root: bool = true;
    let mut i: usize = 0;
    assert(bits@.skip(0) =~= bits@);
    assert(Seq::<u8>::empty() + Seq::<u8>::empty() =~= Seq::<u8>::empty());
    while i < bits.len()
        invariant
            i <= bits@.len(),
            decoding(bits@, *root) == prepend(out@, decode_from(*root, *cur, at_root, bits@.skip(i as int))),
        decreases bits@.len() - i,
    {
        let b = bits[i];
        let ghost rest = bits@.skip(i as int + 1);
        proof {
            assert(bits@.skip(i as int)[0] == b);
            assert(bits@.skip(i as int).drop_first() =~= rest);
        }
        match cur {
            HuffmanNode::Leaf { symbol, .. } => {
                if b != 0 {
                    return Err(HuffmanError::CorruptStream);
                }
                proof {
                    lemma_prepend_push(out@, *symbol, decode_from(*root, *root, true, rest));
                }
                out.push(*symbol);
                cur = root;
                at_root = true;
            },
            HuffmanNode::Internal { left, right, .. } => {
                if b > 1 {
                    return Err(HuffmanError::CorruptStream);
                }
                let next: &HuffmanNode = if b == 0 {
                    &**left
                } else {
                    &**right
                };
                match next {
                    HuffmanNode::Leaf { symbol, .. } => {
                        proof {
                            lemma_prepend_push(out@, *symbol, decode_from(*root, *root, true, rest));
                        }
                        out.push(*symbol);
                        cur = root;
                        at_root = true;
                    },
                    HuffmanNode::Internal { .. } => {
                        cur = next;
                        at_root = false;
                    },
                }
            },
        }
        i = i + 1;
    }
    if !at_root {
        return Err(HuffmanError::TruncatedStream);
    }
    assert(out@ + Seq::<u8>::empty() =~= out@);
    Ok(out)
}

/// Paths to two different symbols of a tree without repeated symbols: neither is a prefix of
/// the other.
proof fn lemma_paths_prefix_free(t: HuffmanNode, s1: u8, s2: u8)
    requires
        t.wf(),
        t is Internal,
        t.contains(s1),
        t.contains(s2),
        s1 != s2,
    ensures
        !is_prefix(path_to(t, s1).unwrap(), path_to(t, s2).unwrap()),
    decreases t,
{
    if let HuffmanNode::Internal { left, right, .. } = t {
        lemma_path_to(*left, s1);
        lemma_path_to(*right, s1);
        lemma_path_to(*left, s2);
        lemma_path_to(*right, s2);
        assert(t.occurrences(s1) <= 1 && t.occurrences(s2) <= 1);
        let x1 = path_to(t, s1).unwrap();
        let x2 = path_to(t, s2).unwrap();
        let in_left1 = left.contains(s1);
        let in_left2 = left.contains(s2);
        if in_left1 != in_left2 {
            assert(x1[0] != x2[0]);
            if is_prefix(x1, x2) {
                assert(x2.take(x1.len() as int)[0] == x2[0]);
            }
        } else {
            let child = if in_left1 {
                *left
            } else {
                *right
            };
            let p1 = path_to(child, s1).unwrap();
            let p2 = path_to(child, s2).unwrap();
            match child {
                HuffmanNode::Leaf { .. } => {},
                HuffmanNode::Internal { .. } => {
                    assert forall|s: u8| #[trigger] child.occurrences(s) <= 1 by {
                        assert(t.occurrences(s) <= 1);
                    }
                    lemma_paths_prefix_free(child, s1, s2);
                    if is_prefix(x1, x2) {
                        assert forall|i: int| 0 <= i < p1.len() implies #[trigger] p2.take(
                            p1.len() as int,
                        )[i] == p1[i] by {
                            assert(x2.take(x1.len() as int)[i + 1] == x1[i + 1]);
                        }
                        assert(p2.take(p1.len() as int) =~= p1);
                    }
                },
            }
        }
    }
}

/// In a tree without repeated symbols, the code of a symbol is never a prefix of the code of
/// another symbol that the tree holds.
pub proof fn lemma_codes_prefix_free(t: HuffmanNode, s1: u8, s2: u8)
    requires
        t.wf(),
        t.contains(s1),
        t.contains(s2),
        s1 != s2,
    ensures
        !is_prefix(code_table(t)[s1 as int], code_table(t)[s2 as int]),
{
    match t {
        HuffmanNode::Leaf { symbol, .. } => {
            assert(t.occurrences(s1) > 0 && t.occurrences(s2) > 0);
            assert(symbol == s1 && symbol == s2);
        },
        HuffmanNode::Internal { .. } => {
            lemma_path_to(t, s1);
            lemma_path_to(t, s2);
            lemma_paths_prefix_free(t, s1, s2);
            assert(code_table(t)[s1 as int] == path_to(t, s1).unwrap());
            assert(code_table(t)[s2 as int] == path_to(t, s2).unwrap());
        },
    }
}

} // verus!
