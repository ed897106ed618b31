use vstd::prelude::*;
use crate::error::HuffmanError;
use crate::frequency::ALPHABET_SIZE;
use crate::tree::HuffmanNode;

verus! {

/// `{"ch":"`, which opens a leaf.
pub open spec fn leaf_open() -> Seq<u8> {
    seq![123u8, 34, 99, 104, 34, 58, 34]
}

/// `","freq":`, between the symbol of a leaf and its weight.
pub open spec fn leaf_mid() -> Seq<u8> {
    seq![34u8, 44, 34, 102, 114, 101, 113, 34, 58]
}

/// `{"freq":`, which opens an internal node.
pub open spec fn node_open() -> Seq<u8> {
    seq![123u8, 34, 102, 114, 101, 113, 34, 58]
}

/// `,"left":`, before the left child.
pub open spec fn left_key() -> Seq<u8> {
    seq![44u8, 34, 108, 101, 102, 116, 34, 58]
}

/// `,"right":`, before the right child.
pub open spec fn right_key() -> Seq<u8> {
    seq![44u8, 34, 114, 105, 103, 104, 116, 34, 58]
}

/// `}`, which closes a node.
pub open spec fn close() -> Seq<u8> {
    seq![125u8]
}

/// A decimal digit in ASCII.
pub open spec fn is_digit(x: u8) -> bool {
    48 <= x && x <= 57
}

/// The decimal digits of `n`, without leading zeros.
pub open spec fn decimal(n: nat) -> Seq<u8>
    decreases n,
{
    if n < 10 {
        seq![(48 + n) as u8]
    } else {
        decimal(n / 10).push((48 + n % 10) as u8)
    }
}

/// The number that a sequence of decimal digits denotes.
pub open spec fn value_of(s: Seq<u8>) -> nat
    decreases s.len(),
{
    if s.len() == 0 {
        0
    } else {
        value_of(s.drop_last()) * 10 + (s.last() - 48) as nat
    }
}

/// The persisted form of a tree: a leaf is `{"ch":"<symbol>","freq":<weight>}` and an internal
/// node is `{"freq":<weight>,"left":<left>,"right":<right>}`.
pub open spec fn serialized(t: HuffmanNode) -> Seq<u8>
    decreases t,
{
    match t {
        HuffmanNode::Leaf { symbol, weight } => leaf_open() + seq![symbol] + leaf_mid() + decimal(
            weight as nat,
        ) + close(),
        HuffmanNode::Internal { weight, left, right } => node_open() + decimal(weight as nat)
            + left_key() + serialized(*left) + right_key() + serialized(*right) + close(),
    }
}

/// `b` holds `tok` from `pos` on.
pub open spec fn at(b: Seq<u8>, pos: int, tok: Seq<u8>) -> bool {
    0 <= pos && pos + tok.len() <= b.len() && b.subrange(pos, pos + tok.len()) == tok
}

/// The number of digits in `b` from `pos` on, up to the first byte that is not one.
pub open spec fn digit_run(b: Seq<u8>, pos: int) -> nat
    decreases b.len() - pos,
{
    if 0 <= pos < b.len() && is_digit(b[pos]) {
        1 + digit_run(b, pos + 1)
    } else {
        0
    }
}

/// `b` holds the concatenation of two sequences exactly when it holds the first and then the
/// second.
pub proof fn lemma_at_concat(b: Seq<u8>, pos: int, x: Seq<u8>, y: Seq<u8>)
    ensures
        at(b, pos, x + y) <==> (at(b, pos, x) && at(b, pos + x.len(), y)),
{
    if at(b, pos, x + y) {
        assert(b.subrange(pos, pos + x.len()) =~= (x + y).subrange(0, x.len() as int));
        assert((x + y).subrange(0, x.len() as int) =~= x);
        assert(b.subrange(pos + x.len(), pos + x.len() + y.len()) =~= (x + y).subrange(
            x.len() as int,
            (x.len() + y.len()) as int,
        ));
        assert((x + y).subrange(x.len() as int, (x.len() + y.len()) as int) =~= y);
    }
    if at(b, pos, x) && at(b, pos + x.len(), y) {
        assert(b.subrange(pos, pos + (x + y).len()) =~= b.subrange(pos, pos + x.len())
            + b.subrange(pos + x.len(), pos + x.len() + y.len()));
    }
}

/// The digits of `n`: at least one, all digits, and they denote `n`.
pub proof fn lemma_decimal(n: nat)
    ensures
        decimal(n).len() >= 1,
        forall|i: int| 0 <= i < decimal(n).len() ==> is_digit(#[trigger] decimal(n)[i]),
        value_of(decimal(n)) == n,
    decreases n,
{
    if n < 10 {
        assert(decimal(n).drop_last() =~= Seq::<u8>::empty());
        assert(value_of(Seq::<u8>::empty()) == 0);
    } else {
        lemma_decimal(n / 10);
        assert(decimal(n).drop_last() =~= decimal(n / 10));
        assert(decimal(n).last() == (48 + n % 10) as u8);
        assert((n / 10) * 10 + n % 10 == n);
    }
}

/// A prefix of a sequence of digits denotes at most what the whole denotes.
pub proof fn lemma_value_prefix(s: Seq<u8>, k: int)
    requires
        0 <= k <= s.len(),
        forall|i: int| 0 <= i < s.len() ==> is_digit(#[trigger] s[i]),
    ensures
        value_of(s.take(k)) <= value_of(s),
    decreases s.len(),
{
    if k == s.len() {
        assert(s.take(k) =~= s);
    } else {
        assert(s.drop_last().take(k) =~= s.take(k));
        lemma_value_prefix(s.drop_last(), k);
    }
}

/// A run of `n` digits that ends at the end of `b` or before a byte that is no digit.
pub proof fn lemma_digit_run_exact(b: Seq<u8>, pos: int, n: nat)
    requires
        0 <= pos,
        pos + n <= b.len(),
        forall|i: int| pos <= i < pos + n ==> is_digit(#[trigger] b[i]),
        pos + n == b.len() || !is_digit(b[pos + n]),
    ensures
        digit_run(b, pos) == n,
    decreases n,
{
    if n > 0 {
        lemma_digit_run_exact(b, pos + 1, (n - 1) as nat);
    }
}

/// Appends `tok` to `out`.
fn push_bytes(out: &mut Vec<u8>, tok: &[u8])
    ensures
        final(out)@ == old(out)@ + tok@,
{
    let mut i: usize = 0;
    while i < tok.len()
        invariant
            i <= tok@.len(),
            out@ == old(out)@ + tok@.take(i as int),
        decreases tok@.len() - i,
    {
        assert(tok@.take(i as int + 1) =~= tok@.take(i as int).push(tok@[i as int]));
        assert(old(out)@ + tok@.take(i as int + 1) =~= (old(out)@ + tok@.take(i as int)).push(
            tok@[i as int],
        ));
        out.push(tok[i]);
        i = i + 1;
    }
    assert(tok@.take(tok@.len() as int) =~= tok@);
}

/// Appends the decimal digits of `n` to `out`.
fn push_decimal(out: &mut Vec<u8>, n: usize)
    ensures
        final(out)@ == old(out)@ + decimal(n as nat),
    decreases n,
{
    if n < 10 {
        out.push(48 + n as u8);
        assert(old(out)@.push((48 + n) as u8) =~= old(out)@ + decimal(n as nat));
    } else {
        push_decimal(out, n / 10);
        out.push(48 + (n % 10) as u8);
        assert(old(out)@ + decimal((n / 10) as nat) + seq![(48 + n % 10) as u8] =~= old(out)@
            + decimal(n as nat));
    }
}

/// Whether `b` holds `tok` from `pos` on.
fn match_token(b: &[u8], pos: usize, tok: &[u8]) -> (r: bool)
    requires
        pos <= b@.len(),
    ensures
        r == at(b@, pos as int, tok@),
{
    let n = b.len();
    if tok.len() > n - pos {
        return false;
    }
    let mut i: usize = 0;
    while i < tok.len()
        invariant
            n == b@.len(),
            pos + tok@.len() <= b@.len(),
            i <= tok@.len(),
            forall|j: int| 0 <= j < i ==> b@[pos + j] == #[trigger] tok@[j],
        decreases tok@.len() - i,
    {
        assert(pos + i < b@.len());
        if b[pos + i] != tok[i] {
            assert(b@.subrange(pos as int, pos + tok@.len())[i as int] != tok@[i as int]);
            return false;
        }
        i = i + 1;
    }
    assert(b@.subrange(pos as int, pos + tok@.len()) =~= tok@);
    true
}

/// Reads the decimal number in `b` from `pos` on. Gives the number and the position after its
/// digits; nothing when there is no digit or when the number does not fit in a `usize`.
fn parse_decimal(b: &[u8], pos: usize) -> (r: Option<(usize, usize)>)
    requires
        pos <= b@.len(),
    ensures
        pos + digit_run(b@, pos as int) <= b@.len(),
        ({
            let run = b@.subrange(pos as int, pos + digit_run(b@, pos as int));
            r == if digit_run(b@, pos as int) > 0 && value_of(run) <= usize::MAX {
                Some((value_of(run) as usize, (pos + digit_run(b@, pos as int)) as usize))
            } else {
                None::<(usize, usize)>
            }
        }),
{
    let mut i: usize = pos;
    let mut v: usize = 0;
    assert(b@.subrange(pos as int, pos as int) =~= Seq::<u8>::empty());
    while i < b.len() && b[i] >= 48 && b[i] <= 57
        invariant
            pos <= i <= b@.len(),
            digit_run(b@, pos as int) == (i - pos) + digit_run(b@, i as int),
            forall|j: int| pos <= j < i ==> is_digit(#[trigger] b@[j]),
            v == value_of(b@.subrange(pos as int, i as int)),
        decreases b@.len() - i,
    {
        let d = (b[i] - 48) as usize;
        let ghost next = b@.subrange(pos as int, i + 1);
        proof {
            assert(next.drop_last() =~= b@.subrange(pos as int, i as int));
            assert(value_of(next) == v * 10 + d);
            lemma_digit_run_bound(b@, i as int + 1);
            let len = digit_run(b@, pos as int);
            let run = b@.subrange(pos as int, pos + len);
            assert forall|j: int| 0 <= j < run.len() implies is_digit(#[trigger] run[j]) by {
                lemma_digit_run_digits(b@, pos as int, pos + j);
            }
            assert(run.take(i + 1 - pos) =~= next);
            lemma_value_prefix(run, i + 1 - pos);
        }
        match v.checked_mul(10) {
            None => {
                return None;
            },
            Some(m) => match m.checked_add(d) {
                None => {
                    return None;
                },
                Some(x) => {
                    v = x;
                },
            },
        }
        i = i + 1;
    }
    assert(digit_run(b@, i as int) == 0);
    if i == pos {
        return None;
    }
    Some((v, i))
}

/// A run of digits never goes past the end.
proof fn lemma_digit_run_bound(b: Seq<u8>, pos: int)
    requires
        0 <= pos <= b.len(),
    ensures
        pos + digit_run(b, pos) <= b.len(),
    decreases b.len() - pos,
{
    if pos < b.len() && is_digit(b[pos]) {
        lemma_digit_run_bound(b, pos + 1);
    }
}

/// Every byte of a run of digits is a digit.
proof fn lemma_digit_run_digits(b: Seq<u8>, pos: int, j: int)
    requires
        0 <= pos <= j < pos + digit_run(b, pos),
    ensures
        is_digit(b[j]),
    decreases j - pos,
{
    if j > pos {
        lemma_digit_run_digits(b, pos + 1, j);
    }
}

/// `b` holds the persisted form of `t` from `pos` on.
pub open spec fn serialized_at(b: Seq<u8>, pos: int, t: HuffmanNode) -> bool {
    at(b, pos, serialized(t))
}

/// What `b` holds from `pos` on when it holds the persisted form of `t` there, piece by piece.
pub open spec fn pieces_at(b: Seq<u8>, pos: int, t: HuffmanNode) -> bool {
    match t {
        HuffmanNode::Leaf { symbol, weight } => {
            let d = decimal(weight as nat);
            &&& at(b, pos, leaf_open())
            &&& !at(b, pos, node_open())
            &&& b[pos + 7] == symbol
            &&& at(b, pos + 8, leaf_mid())
            &&& at(b, pos + 17, d)
            &&& digit_run(b, pos + 17) == d.len()
            &&& value_of(d) == weight
            &&& at(b, pos + 17 + d.len(), close())
            &&& serialized(t).len() == 18 + d.len()
        },
        HuffmanNode::Internal { weight, left, right } => {
            let d = decimal(weight as nat);
            let p = pos + 16 + d.len();
            let q = p + serialized(*left).len();
            &&& at(b, pos, node_open())
            &&& !at(b, pos, leaf_open())
            &&& at(b, pos + 8, d)
            &&& digit_run(b, pos + 8) == d.len()
            &&& value_of(d) == weight
            &&& at(b, pos + 8 + d.len(), left_key())
            &&& serialized_at(b, p, *left)
            &&& at(b, q, right_key())
            &&& serialized_at(b, q + 9, *right)
            &&& at(b, q + 9 + serialized(*right).len(), close())
            &&& serialized(t).len() == q + 9 + serialized(*right).len() + 1 - pos
        },
    }
}

/// The persisted form of `t` at `pos` is made of its pieces.
proof fn lemma_serialized_at(b: Seq<u8>, pos: int, t: HuffmanNode)
    requires
        serialized_at(b, pos, t),
    ensures
        pieces_at(b, pos, t),
{
    match t {
        HuffmanNode::Leaf { symbol, weight } => {
            let d = decimal(weight as nat);
            lemma_decimal(weight as nat);
            let a1 = leaf_open() + seq![symbol];
            let a2 = a1 + leaf_mid();
            let a3 = a2 + d;
            lemma_at_concat(b, pos, a3, close());
            lemma_at_concat(b, pos, a2, d);
            lemma_at_concat(b, pos, a1, leaf_mid());
            lemma_at_concat(b, pos, leaf_open(), seq![symbol]);
            assert(b.subrange(pos + 7, pos + 8)[0] == b[pos + 7]);
            assert(b.subrange(pos, pos + 7)[2] == b[pos + 2]);
            assert(at(b, pos, leaf_open()) ==> b[pos + 2] == 99);
            if at(b, pos, node_open()) {
                assert(b.subrange(pos, pos + 8)[2] == b[pos + 2]);
            }
            assert forall|i: int| pos + 17 <= i < pos + 17 + d.len() implies is_digit(#[trigger] b[i]) by {
                assert(b.subrange(pos + 17, pos + 17 + d.len())[i - pos - 17] == b[i]);
            }
            assert(b.subrange(pos + 17 + d.len(), pos + 18 + d.len())[0] == b[pos + 17 + d.len()]);
            lemma_digit_run_exact(b, pos + 17, d.len());
        },
        HuffmanNode::Internal { weight, left, right } => {
            let d = decimal(weight as nat);
            lemma_decimal(weight as nat);
            let a1 = node_open() + d;
            let a2 = a1 + left_key();
            let a3 = a2 + serialized(*left);
            let a4 = a3 + right_key();
            let a5 = a4 + serialized(*right);
            lemma_at_concat(b, pos, a5, close());
            lemma_at_concat(b, pos, a4, serialized(*right));
            lemma_at_concat(b, pos, a3, right_key());
            lemma_at_concat(b, pos, a2, serialized(*left));
            lemma_at_concat(b, pos, a1, left_key());
            lemma_at_concat(b, pos, node_open(), d);
            assert(b.subrange(pos, pos + 8)[2] == b[pos + 2]);
            if at(b, pos, leaf_open()) {
                assert(b.subrange(pos, pos + 7)[2] == b[pos + 2]);
            }
            assert forall|i: int| pos + 8 <= i < pos + 8 + d.len() implies is_digit(#[trigger] b[i]) by {
                assert(b.subrange(pos + 8, pos + 8 + d.len())[i - pos - 8] == b[i]);
            }
            assert(b.subrange(pos + 8 + d.len(), pos + 16 + d.len())[0] == b[pos + 8 + d.len()]);
            lemma_digit_run_exact(b, pos + 8, d.len());
        },
    }
}

/// Where a written form of `t` that starts at `pos` in `b` ends, when `b` holds one there. A
/// written form is the persisted form of `t` with each weight in any decimal digits that denote
/// it: leading zeros are allowed.
pub open spec fn written_end(b: Seq<u8>, pos: int, t: HuffmanNode) -> Option<int>
    decreases t,
{
    match t {
        HuffmanNode::Leaf { symbol, weight } => {
            let p = pos + 17;
            let n = digit_run(b, p);
            if at(b, pos, leaf_open()) && pos + 7 < b.len() && b[pos + 7] == symbol && at(
                b,
                pos + 8,
                leaf_mid(),
            ) && n > 0 && value_of(b.subrange(p, p + n)) == weight && at(b, p + n, close()) {
                Some(p + n + 1)
            } else {
                None
            }
        },
        HuffmanNode::Internal { weight, left, right } => {
            let n = digit_run(b, pos + 8);
            let p = pos + 8 + n;
            if at(b, pos, node_open()) && n > 0 && value_of(b.subrange(pos + 8, p)) == weight && at(
                b,
                p,
                left_key(),
            ) {
                match written_end(b, p + 8, *left) {
                    Some(q) => if at(b, q, right_key()) {
                        match written_end(b, q + 9, *right) {
                            Some(e) => if at(b, e, close()) {
                                Some(e + 1)
                            } else {
                                None
                            },
                            None => None,
                        }
                    } else {
                        None
                    },
                    None => None,
                }
            } else {
                None
            }
        },
    }
}

/// A leaf and an internal node never open at the same place.
proof fn lemma_openings_differ(b: Seq<u8>, pos: int)
    ensures
        !(at(b, pos, leaf_open()) && at(b, pos, node_open())),
{
    if at(b, pos, leaf_open()) && at(b, pos, node_open()) {
        assert(b.subrange(pos, pos + 7)[2] == b[pos + 2]);
        assert(b.subrange(pos, pos + 8)[2] == b[pos + 2]);
    }
}

/// The persisted form of a tree is one of its written forms.
pub proof fn lemma_serialized_is_written(b: Seq<u8>, pos: int, t: HuffmanNode)
    requires
        serialized_at(b, pos, t),
    ensures
        written_end(b, pos, t) == Some(pos + serialized(t).len()),
    decreases t,
{
    lemma_serialized_at(b, pos, t);
    if let HuffmanNode::Internal { weight, left, right } = t {
        let d = decimal(weight as nat);
        let p = pos + 16 + d.len();
        lemma_serialized_is_written(b, p, *left);
        lemma_serialized_is_written(b, p + serialized(*left).len() + 9, *right);
    }
}

/// Two trees written at the same place are the same tree.
pub proof fn lemma_written_unique(b: Seq<u8>, pos: int, t1: HuffmanNode, t2: HuffmanNode)
    requires
        written_end(b, pos, t1) is Some,
        written_end(b, pos, t2) is Some,
    ensures
        t1 == t2,
    decreases t1,
{
    lemma_openings_differ(b, pos);
    match (t1, t2) {
        (
            HuffmanNode::Internal { left: l1, right: r1, .. },
            HuffmanNode::Internal { left: l2, right: r2, .. },
        ) => {
            let p = pos + 8 + digit_run(b, pos + 8);
            lemma_written_unique(b, p + 8, *l1, *l2);
            let q = written_end(b, p + 8, *l1).unwrap();
            lemma_written_unique(b, q + 9, *r1, *r2);
        },
        _ => {},
    }
}

/// The tree that `bytes` is a written form of, when there is one without repeated symbols.
pub open spec fn deserialized(bytes: Seq<u8>) -> Result<HuffmanNode, HuffmanError> {
    if exists|t: HuffmanNode| t.wf() && #[trigger] written_end(bytes, 0, t) == Some(bytes.len() as int) {
        Ok(choose|t: HuffmanNode| t.wf() && #[trigger] written_end(bytes, 0, t) == Some(bytes.len() as int))
    } else {
        Err(HuffmanError::MalformedTree)
    }
}

/// Reading back the persisted form of a tree without repeated symbols gives that tree.
pub proof fn lemma_serialization_round_trip(t: HuffmanNode)
    requires
        t.wf(),
    ensures
        deserialized(serialized(t)) == Ok::<HuffmanNode, HuffmanError>(t),
{
    let b = serialized(t);
    assert(b.subrange(0, b.len() as int) =~= b);
    lemma_serialized_is_written(b, 0, t);
    let u = choose|u: HuffmanNode| u.wf() && #[trigger] written_end(b, 0, u) == Some(b.len() as int);
    lemma_written_unique(b, 0, t, u);
}

impl HuffmanNode {
    /// Appends the persisted form of the subtree to `out`.
    pub fn serialize(&self, out: &mut Vec<u8>)
        ensures
            final(out)@ == old(out)@ + serialized(*self),
        decreases self,
    {
        let ghost start = out@;
        match self {
            HuffmanNode::Leaf { symbol, weight } => {
                let open: [u8; 7] = [123u8, 34, 99, 104, 34, 58, 34];
                let mid: [u8; 9] = [34u8, 44, 34, 102, 114, 101, 113, 34, 58];
                push_bytes(out, &open);
                out.push(*symbol);
                push_bytes(out, &mid);
                push_decimal(out, *weight);
                out.push(125);
                assert(open@ =~= leaf_open());
                assert(mid@ =~= leaf_mid());
                assert(out@ =~= start + serialized(*self));
            },
            HuffmanNode::Internal { weight, left, right } => {
                let open: [u8; 8] = [123u8, 34, 102, 114, 101, 113, 34, 58];
                let lkey: [u8; 8] = [44u8, 34, 108, 101, 102, 116, 34, 58];
                let rkey: [u8; 9] = [44u8, 34, 114, 105, 103, 104, 116, 34, 58];
                push_bytes(out, &open);
                push_decimal(out, *weight);
                push_bytes(out, &lkey);
                left.serialize(out);
                push_bytes(out, &rkey);
                right.serialize(out);
                out.push(125);
                assert(open@ =~= node_open());
                assert(lkey@ =~= left_key());
                assert(rkey@ =~= right_key());
                assert(out@ =~= start + serialized(*self));
            },
        }
    }

    /// Reads a whole persisted tree: succeeds exactly when `bytes` is a written form of a tree in
    /// which no two leaves hold the same symbol, with nothing after it, and gives that tree;
    /// fails with `MalformedTree` otherwise.
    pub fn deserialize(bytes: &[u8]) -> (r: Result<HuffmanNode, HuffmanError>)
        ensures
            r == deserialized(bytes@),
            r matches Ok(t) ==> t.wf() && written_end(bytes@, 0, t) == Some(bytes@.len() as int),
    {
        let ghost b = bytes@;
        match parse_node(bytes, 0) {
            Err(e) => Err(e),
            Ok((t, end)) => {
                if end != bytes.len() {
                    return Err(HuffmanError::MalformedTree);
                }
                let mut seen: Vec<bool> = Vec::new();
                let mut k: usize = 0;
                while k < ALPHABET_SIZE
                    invariant
                        k <= ALPHABET_SIZE,
                        seen@.len() == k,
                        forall|j: int| 0 <= j < k ==> !(#[trigger] seen@[j]),
                    decreases ALPHABET_SIZE - k,
                {
                    seen.push(false);
                    k = k + 1;
                }
                let ghost s0 = seen@;
                if mark_symbols(&t, &mut seen) {
                    proof {
                        let w = choose|s: u8| #[trigger] t.occurrences(s) > 1 || (s0[s as int] && t.occurrences(s) > 0);
                        assert(!s0[w as int]);
                        assert forall|u: HuffmanNode| !(u.wf() && #[trigger] written_end(b, 0, u) == Some(b.len() as int)) by {
                            if written_end(b, 0, u) is Some {
                                assert(u.occurrences(w) > 1);
                            }
                        }
                    }
                    return Err(HuffmanError::MalformedTree);
                }
                proof {
                    let u = choose|u: HuffmanNode| u.wf() && #[trigger] written_end(b, 0, u) == Some(b.len() as int);
                    if u.wf() && written_end(b, 0, u) == Some(b.len() as int) {
                        lemma_written_unique(b, 0, t, u);
                    }
                }
                Ok(t)
            },
        }
    }
}

/// Reads a written form of one node from `pos` on, with whatever follows it left unread.
/// Gives the node and the position after it, exactly when `bytes` holds a written form of some
/// tree there; fails with `MalformedTree` otherwise.
pub fn parse_node(bytes: &[u8], pos: usize) -> (r: Result<(HuffmanNode, usize), HuffmanError>)
    requires
        pos <= bytes@.len(),
    ensures
        match r {
            Ok((t, end)) => pos < end <= bytes@.len() && written_end(bytes@, pos as int, t) == Some(
                end as int,
            ),
            Err(e) => e == HuffmanError::MalformedTree,
        },
        forall|t: HuffmanNode| (#[trigger] written_end(bytes@, pos as int, t)) is Some ==> r == Ok::<
            (HuffmanNode, usize),
            HuffmanError,
        >((t, written_end(bytes@, pos as int, t).unwrap() as usize)),
    decreases bytes@.len() - pos, 1nat,
{
    let b = bytes;
    let lopen: [u8; 7] = [123u8, 34, 99, 104, 34, 58, 34];
    let nopen: [u8; 8] = [123u8, 34, 102, 114, 101, 113, 34, 58];
    assert(lopen@ =~= leaf_open());
    assert(nopen@ =~= node_open());
    if match_token(b, pos, &lopen) {
        parse_leaf(b, pos)
    } else if match_token(b, pos, &nopen) {
        parse_internal(b, pos)
    } else {
        proof {
            assert forall|u: HuffmanNode| (#[trigger] written_end(b@, pos as int, u)) is Some implies false by {
                lemma_openings_differ(b@, pos as int);
            }
        }
        Err(HuffmanError::MalformedTree)
    }
}

/// Reads a leaf from `pos` on, where `bytes` holds the opening of a leaf.
fn parse_leaf(bytes: &[u8], pos: usize) -> (r: Result<(HuffmanNode, usize), HuffmanError>)
    requires
        at(bytes@, pos as int, leaf_open()),
    ensures
        match r {
            Ok((t, end)) => pos < end <= bytes@.len() && written_end(bytes@, pos as int, t) == Some(
                end as int,
            ),
            Err(e) => e == HuffmanError::MalformedTree,
        },
        forall|t: HuffmanNode| (#[trigger] written_end(bytes@, pos as int, t)) is Some ==> r == Ok::<
            (HuffmanNode, usize),
            HuffmanError,
        >((t, written_end(bytes@, pos as int, t).unwrap() as usize)),
{
    let b = bytes;
    let n = b.len();
    let lmid: [u8; 9] = [34u8, 44, 34, 102, 114, 101, 113, 34, 58];
    let cl: [u8; 1] = [125u8];
    assert(lmid@ =~= leaf_mid());
    assert(cl@ =~= close());
    let p = pos + 7;
    if p >= n || !match_token(b, p + 1, &lmid) {
        proof {
            assert forall|u: HuffmanNode| (#[trigger] written_end(b@, pos as int, u)) is Some implies false by {
                lemma_openings_differ(b@, pos as int);
            }
        }
        return Err(HuffmanError::MalformedTree);
    }
    let symbol = b[p];
    match parse_decimal(b, p + 10) {
        None => {
            proof {
                assert forall|u: HuffmanNode| (#[trigger] written_end(b@, pos as int, u)) is Some implies false by {
                    lemma_openings_differ(b@, pos as int);
                }
            }
            Err(HuffmanError::MalformedTree)
        },
        Some((weight, e)) => {
            if !match_token(b, e, &cl) {
                proof {
                    assert forall|u: HuffmanNode| (#[trigger] written_end(b@, pos as int, u)) is Some implies false by {
                        lemma_openings_differ(b@, pos as int);
                    }
                }
                return Err(HuffmanError::MalformedTree);
            }
            let t = HuffmanNode::Leaf { symbol, weight };
            proof {
                assert(written_end(b@, pos as int, t) == Some(e as int + 1));
                assert forall|u: HuffmanNode| (#[trigger] written_end(b@, pos as int, u)) is Some implies u == t by {
                    lemma_openings_differ(b@, pos as int);
                }
            }
            Ok((t, e + 1))
        },
    }
}

/// Reads an internal node from `pos` on, where `bytes` holds the opening of one.
fn parse_internal(bytes: &[u8], pos: usize) -> (r: Result<(HuffmanNode, usize), HuffmanError>)
    requires
        at(bytes@, pos as int, node_open()),
    ensures
        match r {
            Ok((t, end)) => pos < end <= bytes@.len() && written_end(bytes@, pos as int, t) == Some(
                end as int,
            ),
            Err(e) => e == HuffmanError::MalformedTree,
        },
        forall|t: HuffmanNode| (#[trigger] written_end(bytes@, pos as int, t)) is Some ==> r == Ok::<
            (HuffmanNode, usize),
            HuffmanError,
        >((t, written_end(bytes@, pos as int, t).unwrap() as usize)),
    decreases bytes@.len() - pos, 0nat,
{
    let b = bytes;
    let n = b.len();
    let lkey: [u8; 8] = [44u8, 34, 108, 101, 102, 116, 34, 58];
    let rkey: [u8; 9] = [44u8, 34, 114, 105, 103, 104, 116, 34, 58];
    let cl: [u8; 1] = [125u8];
    assert(lkey@ =~= left_key());
    assert(rkey@ =~= right_key());
    assert(cl@ =~= close());
    let weight: usize;
    let e: usize;
    match parse_decimal(b, pos + 8) {
        None => {
            proof {
                assert forall|u: HuffmanNode| (#[trigger] written_end(b@, pos as int, u)) is Some implies false by {
                    lemma_openings_differ(b@, pos as int);
                }
            }
            return Err(HuffmanError::MalformedTree);
        },
        Some((w, x)) => {
            weight = w;
            e = x;
        },
    }
    if !match_token(b, e, &lkey) {
        proof {
            assert forall|u: HuffmanNode| (#[trigger] written_end(b@, pos as int, u)) is Some implies false by {
                lemma_openings_differ(b@, pos as int);
            }
        }
        return Err(HuffmanError::MalformedTree);
    }
    let (left, e2) = match parse_node(b, e + 8) {
        Err(x) => {
            proof {
                assert forall|u: HuffmanNode| (#[trigger] written_end(b@, pos as int, u)) is Some implies false by {
                    lemma_openings_differ(b@, pos as int);
                    if let HuffmanNode::Internal { left: ul, right: ur, .. } = u {
                        assert(written_end(b@, e + 8, *ul) is Some);
                    }
                }
            }
            return Err(x);
        },
        Ok(v) => v,
    };
    if !match_token(b, e2, &rkey) {
        proof {
            assert forall|u: HuffmanNode| (#[trigger] written_end(b@, pos as int, u)) is Some implies false by {
                lemma_openings_differ(b@, pos as int);
                if let HuffmanNode::Internal { left: ul, right: ur, .. } = u {
                    assert(written_end(b@, e + 8, *ul) is Some);
                    assert(*ul == left);
                    assert(written_end(b@, e2 + 9, *ur) is Some);
                }
            }
        }
        return Err(HuffmanError::MalformedTree);
    }
    let (right, e3) = match parse_node(b, e2 + 9) {
        Err(x) => {
            proof {
                assert forall|u: HuffmanNode| (#[trigger] written_end(b@, pos as int, u)) is Some implies false by {
                    lemma_openings_differ(b@, pos as int);
                    if let HuffmanNode::Internal { left: ul, right: ur, .. } = u {
                        assert(written_end(b@, e + 8, *ul) is Some);
                        assert(*ul == left);
                        assert(written_end(b@, e2 + 9, *ur) is Some);
                    }
                }
            }
            return Err(x);
        },
        Ok(v) => v,
    };
    if !match_token(b, e3, &cl) {
        proof {
            assert forall|u: HuffmanNode| (#[trigger] written_end(b@, pos as int, u)) is Some implies false by {
                lemma_openings_differ(b@, pos as int);
                if let HuffmanNode::Internal { left: ul, right: ur, .. } = u {
                    assert(written_end(b@, e + 8, *ul) is Some);
                    assert(*ul == left);
                    assert(written_end(b@, e2 + 9, *ur) is Some);
                }
            }
        }
        return Err(HuffmanError::MalformedTree);
    }
    let t = HuffmanNode::Internal { weight, left: Box::new(left), right: Box::new(right) };
    proof {
        assert(written_end(b@, pos as int, t) == Some(e3 as int + 1));
        assert forall|u: HuffmanNode| (#[trigger] written_end(b@, pos as int, u)) is Some implies u == t by {
            lemma_openings_differ(b@, pos as int);
            if let HuffmanNode::Internal { left: ul, right: ur, .. } = u {
                assert(written_end(b@, e + 8, *ul) is Some);
                assert(*ul == left);
                assert(written_end(b@, e2 + 9, *ur) is Some);
                assert(*ur == right);
            }
        }
    }
    Ok((t, e3 + 1))
}

/// Marks in `seen` the symbols of the leaves of `t`; tells whether a symbol was met twice,
/// in `t` or in `t` and `seen`.
fn mark_symbols(t: &HuffmanNode, seen: &mut Vec<bool>) -> (dup: bool)
    requires
        old(seen)@.len() == ALPHABET_SIZE,
    ensures
        final(seen)@.len() == ALPHABET_SIZE,
        !dup ==> forall|s: u8| #[trigger] final(seen)@[s as int] == (old(seen)@[s as int] || t.occurrences(s) > 0),
        !dup ==> forall|s: u8| #[trigger] t.occurrences(s) <= 1 && !(old(seen)@[s as int] && t.occurrences(s) > 0),
        dup ==> exists|s: u8| #[trigger] t.occurrences(s) > 1 || (old(seen)@[s as int] && t.occurrences(s) > 0),
    decreases t,
{
    match t {
        HuffmanNode::Leaf { symbol, .. } => {
            if seen[*symbol as usize] {
                assert(t.occurrences(*symbol) > 0);
                return true;
            }
            seen.set(*symbol as usize, true);
            false
        },
        HuffmanNode::Internal { left, right, .. } => {
            let ghost s0 = seen@;
            if mark_symbols(left, seen) {
                let ghost w = choose|s: u8| #[trigger] left.occurrences(s) > 1 || (s0[s as int] && left.occurrences(s) > 0);
                assert(t.occurrences(w) > 1 || (s0[w as int] && t.occurrences(w) > 0));
                return true;
            }
            let ghost s1 = seen@;
            if mark_symbols(right, seen) {
                let ghost w = choose|s: u8| #[trigger] right.occurrences(s) > 1 || (s1[s as int] && right.occurrences(s) > 0);
                assert(s1[w as int] == (s0[w as int] || left.occurrences(w) > 0));
                assert(t.occurrences(w) > 1 || (s0[w as int] && t.occurrences(w) > 0));
                return true;
            }
            assert forall|s: u8| #[trigger] t.occurrences(s) <= 1 && !(s0[s as int] && t.occurrences(s) > 0) by {
                assert(s1[s as int] == (s0[s as int] || left.occurrences(s) > 0));
                assert(left.occurrences(s) <= 1 && right.occurrences(s) <= 1);
            }
            assert forall|s: u8| #[trigger] seen@[s as int] == (s0[s as int] || t.occurrences(s) > 0) by {
                assert(s1[s as int] == (s0[s as int] || left.occurrences(s) > 0));
            }
            false
        },
    }
}

/// The persisted form of the tree `root`.
pub fn serialize_tree(root: &HuffmanNode) -> (r: Vec<u8>)
    ensures
        r@ == serialized(*root),
{
    let mut out: Vec<u8> = Vec::new();
    root.serialize(&mut out);
    assert(out@ =~= serialized(*root));
    out
}

/// Reads back a whole persisted tree: succeeds exactly when `bytes` is a written form of a tree
/// in which no two leaves hold the same symbol, with nothing after it, and gives that tree;
/// fails with `MalformedTree` otherwise.
pub fn deserialize_tree(bytes: &[u8]) -> (r: Result<HuffmanNode, HuffmanError>)
    ensures
        r == deserialized(bytes@),
        r matches Ok(t) ==> t.wf() && written_end(bytes@, 0, t) == Some(bytes@.len() as int),
{
    HuffmanNode::deserialize(bytes)
}

} // verus!
