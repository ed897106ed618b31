use vstd::prelude::*;
use crate::codes::{
    code_table, covers, decoding, encoding, encode, generate_huffman_codes, is_prefix,
    lemma_code_of_nonempty, lemma_codes_prefix_free, lemma_decode_encoding,
};
use crate::error::HuffmanError;
use crate::frequency::{calculate_frequencies, sum_counts, ALPHABET_SIZE};
use crate::tree::{build_tree, huffman_tree, lemma_huffman_tree_symbols, has_symbol, HuffmanNode};

verus! {

/// The table of counts of `input`: the count of each symbol is how often it occurs.
pub open spec fn counts_of(input: Seq<u8>) -> Seq<usize> {
    Seq::new(ALPHABET_SIZE as nat, |s: int| input.to_multiset().count(s as u8) as usize)
}

/// Round trip: a non-empty input, encoded with the codes of the tree built from its own counts,
/// decodes with that tree to the input itself.
pub proof fn lemma_round_trip(input: Seq<u8>, c: Seq<usize>)
    requires
        input.len() > 0,
        c.len() == ALPHABET_SIZE,
        forall|s: u8| #[trigger] c[s as int] == input.to_multiset().count(s),
        sum_counts(c) == input.len(),
        input.len() <= usize::MAX,
    ensures
        has_symbol(c),
        covers(code_table(huffman_tree(c)), input),
        decoding(encoding(input, code_table(huffman_tree(c))), huffman_tree(c)) == Ok::<
            Seq<u8>,
            HuffmanError,
        >(input),
{
    broadcast use vstd::seq_lib::group_to_multiset_ensures;

    assert(input.contains(input[0]));
    assert(c[input[0] as int] > 0);
    lemma_huffman_tree_symbols(c);
    let t = huffman_tree(c);
    assert forall|i: int| 0 <= i < input.len() implies t.contains(#[trigger] input[i]) by {
        assert(input.contains(input[i]));
        assert(c[input[i] as int] > 0);
    }
    assert forall|i: int| 0 <= i < input.len() implies #[trigger] code_table(t)[input[i] as int].len()
        > 0 by {
        assert(t.contains(input[i]));
        lemma_code_of_nonempty(t, input[i]);
    }
    lemma_decode_encoding(t, input);
}

/// Counts the symbols of `input` and builds their Huffman tree. Fails when `input` is empty.
pub fn build_huffman_tree(input: &[u8]) -> (r: Result<HuffmanNode, HuffmanError>)
    ensures
        input@.len() == 0 ==> r == Err::<HuffmanNode, HuffmanError>(HuffmanError::EmptyInput),
        input@.len() > 0 ==> r == Ok::<HuffmanNode, HuffmanError>(huffman_tree(counts_of(input@))),
        input@.len() > 0 ==> has_symbol(counts_of(input@)) && covers(
            code_table(huffman_tree(counts_of(input@))),
            input@,
        ) && decoding(
            encoding(input@, code_table(huffman_tree(counts_of(input@)))),
            huffman_tree(counts_of(input@)),
        ) == Ok::<Seq<u8>, HuffmanError>(input@),
        r matches Ok(t) ==> t.wf(),
{
    let freqs = calculate_frequencies(input);
    proof {
        assert(freqs@ =~= counts_of(input@));
        if input@.len() == 0 {
            assert forall|s: u8| !(#[trigger] freqs@[s as int] > 0) by {
                assert(input@.to_multiset().count(s) == 0) by {
                    broadcast use vstd::seq_lib::group_to_multiset_ensures;
                }
            }
        } else {
            lemma_round_trip(input@, freqs@);
        }
    }
    build_tree(&freqs)
}

/// Counts the symbols of `input`, builds their tree and encodes `input` with its codes. Returns
/// the tree and the bits, which decode with that tree to `input`. Fails when `input` is empty.
pub fn huffman_encode(input: &[u8]) -> (r: Result<(HuffmanNode, Vec<u8>), HuffmanError>)
    ensures
        input@.len() == 0 ==> r == Err::<(HuffmanNode, Vec<u8>), HuffmanError>(HuffmanError::EmptyInput),
        input@.len() > 0 ==> (r matches Ok((t, bits)) && t == huffman_tree(counts_of(input@))
            && bits@ == encoding(input@, code_table(t))
            && decoding(bits@, t) == Ok::<Seq<u8>, HuffmanError>(input@)),
{
    let tree = match build_huffman_tree(input) {
        Ok(t) => t,
        Err(e) => {
            return Err(e);
        },
    };
    let codes = generate_huffman_codes(&tree);
    match encode(input, &codes) {
        Ok(bits) => Ok((tree, bits)),
        Err(e) => Err(e),
    }
}

/// Prefix code: in the tree built from a table of counts, the code of a symbol with a count is
/// never a prefix of the code of another symbol with a count.
pub proof fn lemma_prefix_code(c: Seq<usize>, s1: u8, s2: u8)
    requires
        c.len() == ALPHABET_SIZE,
        sum_counts(c) <= usize::MAX,
        c[s1 as int] > 0,
        c[s2 as int] > 0,
        s1 != s2,
    ensures
        !is_prefix(code_table(huffman_tree(c))[s1 as int], code_table(huffman_tree(c))[s2 as int]),
{
    lemma_huffman_tree_symbols(c);
    assert(huffman_tree(c).contains(s1));
    assert(huffman_tree(c).contains(s2));
    lemma_codes_prefix_free(huffman_tree(c), s1, s2);
}

} // verus!
