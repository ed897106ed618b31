use huffman::codec::{build_huffman_tree, huffman_encode};
use huffman::codes::{decode, encode, generate_huffman_codes, traverse, CodeTable};
use huffman::error::HuffmanError;
use huffman::frequency::calculate_frequencies;
use huffman::serial::{deserialize_tree, parse_node, serialize_tree};
use huffman::tree::{build_tree, HuffmanNode};

fn leaf(symbol: u8, weight: usize) -> HuffmanNode {
    HuffmanNode::new(symbol, weight)
}

fn internal(weight: usize, left: HuffmanNode, right: HuffmanNode) -> HuffmanNode {
    HuffmanNode::Internal { weight, left: Box::new(left), right: Box::new(right) }
}

fn codes_of(input: &[u8]) -> (HuffmanNode, CodeTable) {
    let tree = build_tree(&calculate_frequencies(input)).unwrap();
    let codes = generate_huffman_codes(&tree);
    (tree, codes)
}

fn round_trip(input: &[u8]) {
    let (tree, codes) = codes_of(input);
    let bits = encode(input, &codes).unwrap();
    assert_eq!(decode(&bits, &tree).unwrap(), input.to_vec());
}

#[test]
fn counts_each_symbol() {
    let f = calculate_frequencies(b"aabbbc");
    assert_eq!(f.count(b'a'), 2);
    assert_eq!(f.count(b'b'), 3);
    assert_eq!(f.count(b'c'), 1);
    assert_eq!(f.count(b'd'), 0);
    assert_eq!(f.total(), 6);
}

#[test]
fn counts_of_empty_input_are_zero() {
    let f = calculate_frequencies(b"");
    assert_eq!(f.total(), 0);
    assert_eq!(f.count(0), 0);
}

#[test]
fn scenario_aabbbc_code_lengths_and_round_trip() {
    let input = b"aabbbc";
    let (tree, codes) = codes_of(input);
    assert_eq!(codes.code(b'b').len(), 1);
    assert_eq!(codes.code(b'a').len(), 2);
    assert_eq!(codes.code(b'c').len(), 2);
    assert_eq!(codes.code(b'z').len(), 0);
    let bits = encode(input, &codes).unwrap();
    assert_eq!(bits.len(), 9);
    assert_eq!(decode(&bits, &tree).unwrap(), input.to_vec());
}

#[test]
fn scenario_aabbbc_exact_tree() {
    // Keys are (1,c), (2,a), (3,b): c and a merge into (3, smallest symbol a), which comes
    // before (3, b) and so becomes the left child of the root.
    let tree = build_tree(&calculate_frequencies(b"aabbbc")).unwrap();
    let expected = internal(6, internal(3, leaf(b'c', 1), leaf(b'a', 2)), leaf(b'b', 3));
    assert_eq!(tree, expected);
    let codes = generate_huffman_codes(&tree);
    assert_eq!(codes.code(b'c').clone(), vec![0, 0]);
    assert_eq!(codes.code(b'a').clone(), vec![0, 1]);
    assert_eq!(codes.code(b'b').clone(), vec![1]);
}

#[test]
fn scenario_single_repeated_symbol() {
    let input = b"aaaa";
    let (tree, codes) = codes_of(input);
    assert_eq!(tree, leaf(b'a', 4));
    assert_eq!(codes.code(b'a').clone(), vec![0]);
    let bits = encode(input, &codes).unwrap();
    assert_eq!(bits, vec![0, 0, 0, 0]);
    assert_eq!(decode(&bits, &tree).unwrap(), input.to_vec());
}

#[test]
fn scenario_truncated_stream() {
    let tree = internal(
        4,
        internal(3, leaf(b'a', 1), internal(2, leaf(b'b', 1), leaf(b'c', 1))),
        leaf(b'd', 1),
    );
    assert_eq!(decode(&[0, 1], &tree), Err(HuffmanError::TruncatedStream));
    assert_eq!(decode(&[0, 1, 1], &tree).unwrap(), vec![b'c']);
}

#[test]
fn corrupt_bit_is_rejected() {
    let (tree, _) = codes_of(b"ab");
    assert_eq!(decode(&[2], &tree), Err(HuffmanError::CorruptStream));
    assert_eq!(decode(&[0, 7, 1], &tree), Err(HuffmanError::CorruptStream));
}

#[test]
fn single_leaf_tree_rejects_bit_one() {
    let tree = leaf(b'x', 3);
    assert_eq!(decode(&[0, 1], &tree), Err(HuffmanError::CorruptStream));
    assert_eq!(decode(&[0, 0], &tree).unwrap(), vec![b'x', b'x']);
}

#[test]
fn empty_stream_decodes_to_nothing() {
    let (tree, _) = codes_of(b"abc");
    assert_eq!(decode(&[], &tree).unwrap(), Vec::<u8>::new());
}

#[test]
fn unknown_symbol_is_rejected() {
    let (_, codes) = codes_of(b"ab");
    assert_eq!(encode(b"abc", &codes), Err(HuffmanError::UnknownSymbol));
}

#[test]
fn empty_input_has_no_tree() {
    assert_eq!(build_tree(&calculate_frequencies(b"")), Err(HuffmanError::EmptyInput));
    assert_eq!(build_huffman_tree(b""), Err(HuffmanError::EmptyInput));
    assert_eq!(huffman_encode(b"").err(), Some(HuffmanError::EmptyInput));
}

#[test]
fn round_trip_on_several_inputs() {
    round_trip(b"a");
    round_trip(b"ab");
    round_trip(b"This is an example text to be compressed using Huffman coding.");
    let all: Vec<u8> = (0..=255u8).chain(0..=10u8).collect();
    round_trip(&all);
}

#[test]
fn huffman_encode_round_trips() {
    let input = b"abracadabra";
    let (tree, bits) = huffman_encode(input).unwrap();
    assert_eq!(tree, build_huffman_tree(input).unwrap());
    assert_eq!(decode(&bits, &tree).unwrap(), input.to_vec());
    // a:5, b:2, r:2, c:1, d:1 gives 5*1 + 2*3 + 2*3 + 1*4 + 1*4 = 23 bits at best.
    assert_eq!(bits.len(), 23);
}

#[test]
fn no_code_is_a_prefix_of_another() {
    let input = b"This is an example text to be compressed using Huffman coding.";
    let (_, codes) = codes_of(input);
    let present: Vec<u8> = (0..=255u8).filter(|s| codes.code(*s).len() > 0).collect();
    for &x in &present {
        for &y in &present {
            if x != y {
                let cx = codes.code(x);
                let cy = codes.code(y);
                assert!(!(cx.len() <= cy.len() && cy[..cx.len()] == cx[..]));
            }
        }
    }
}

#[test]
fn building_is_deterministic_across_input_orders() {
    let t1 = build_tree(&calculate_frequencies(b"abcabcdd")).unwrap();
    let t2 = build_tree(&calculate_frequencies(b"ddcbacba")).unwrap();
    assert_eq!(t1, t2);
    let c1 = generate_huffman_codes(&t1);
    let c2 = generate_huffman_codes(&t2);
    for s in 0..=255u8 {
        assert_eq!(c1.code(s), c2.code(s));
    }
}

#[test]
fn equal_weights_are_ordered_by_symbol() {
    let tree = build_tree(&calculate_frequencies(b"dcba")).unwrap();
    let expected = internal(
        4,
        internal(2, leaf(b'a', 1), leaf(b'b', 1)),
        internal(2, leaf(b'c', 1), leaf(b'd', 1)),
    );
    assert_eq!(tree, expected);
}

#[test]
fn weighted_code_length_is_minimal_for_known_tables() {
    // a:1 b:1 c:2 d:4: the optimum is 1*3 + 1*3 + 2*2 + 4*1 = 14.
    let input = b"abccdddd";
    let (_, codes) = codes_of(input);
    let total: usize = input.iter().map(|s| codes.code(*s).len()).sum();
    assert_eq!(total, 14);
}

#[test]
fn serialized_form_is_exact() {
    let tree = build_tree(&calculate_frequencies(b"aab")).unwrap();
    let bytes = serialize_tree(&tree);
    assert_eq!(
        String::from_utf8(bytes).unwrap(),
        "{\"freq\":3,\"left\":{\"ch\":\"b\",\"freq\":1},\"right\":{\"ch\":\"a\",\"freq\":2}}"
    );
}

#[test]
fn serialization_round_trips() {
    for input in [&b"aabbbc"[..], b"aaaa", b"abracadabra", b"x"] {
        let tree = build_huffman_tree(input).unwrap();
        assert_eq!(deserialize_tree(&serialize_tree(&tree)), Ok(tree));
    }
    let big = leaf(b'"', 1234567890);
    assert_eq!(deserialize_tree(&serialize_tree(&big)), Ok(big));
    let zero = leaf(b'}', 0);
    assert_eq!(deserialize_tree(&serialize_tree(&zero)), Ok(zero));
}

#[test]
fn parse_node_reports_its_end() {
    let bytes = b"{\"ch\":\"q\",\"freq\":12}rest";
    assert_eq!(parse_node(bytes, 0), Ok((leaf(b'q', 12), 20)));
}

#[test]
fn deserialize_reads_the_whole_input() {
    let bytes = b"{\"ch\":\"q\",\"freq\":12}";
    assert_eq!(HuffmanNode::deserialize(bytes), Ok(leaf(b'q', 12)));
    assert_eq!(
        HuffmanNode::deserialize(b"{\"ch\":\"a\",\"freq\":4}x"),
        Err(HuffmanError::MalformedTree)
    );
    assert_eq!(
        HuffmanNode::deserialize(b" {\"ch\":\"a\",\"freq\":4}"),
        Err(HuffmanError::MalformedTree)
    );
    assert_eq!(HuffmanNode::deserialize(b""), Err(HuffmanError::MalformedTree));
}

#[test]
fn weights_with_leading_zeros_are_read() {
    assert_eq!(deserialize_tree(b"{\"ch\":\"a\",\"freq\":007}"), Ok(leaf(b'a', 7)));
    let bytes = b"{\"freq\":0003,\"left\":{\"ch\":\"b\",\"freq\":01},\"right\":{\"ch\":\"a\",\"freq\":2}}";
    assert_eq!(
        deserialize_tree(bytes),
        Ok(internal(3, leaf(b'b', 1), leaf(b'a', 2)))
    );
}

#[test]
fn malformed_trees_are_rejected() {
    let good = b"{\"freq\":3,\"left\":{\"ch\":\"b\",\"freq\":1},\"right\":{\"ch\":\"a\",\"freq\":2}}";
    assert!(deserialize_tree(good).is_ok());
    assert_eq!(deserialize_tree(&good[..good.len() - 1]), Err(HuffmanError::MalformedTree));
    let mut trailing = good.to_vec();
    trailing.push(b' ');
    assert_eq!(deserialize_tree(&trailing), Err(HuffmanError::MalformedTree));
    assert_eq!(deserialize_tree(b""), Err(HuffmanError::MalformedTree));
    assert_eq!(deserialize_tree(b"{\"ch\":\"a\",\"freq\":}"), Err(HuffmanError::MalformedTree));
    assert_eq!(
        deserialize_tree(b"{\"ch\":\"a\",\"freq\":99999999999999999999999}"),
        Err(HuffmanError::MalformedTree)
    );
    let repeated = b"{\"freq\":2,\"left\":{\"ch\":\"a\",\"freq\":1},\"right\":{\"ch\":\"a\",\"freq\":1}}";
    assert_eq!(deserialize_tree(repeated), Err(HuffmanError::MalformedTree));
}

#[test]
fn traverse_records_paths_after_the_prefix() {
    let tree = internal(2, leaf(b'a', 1), leaf(b'b', 1));
    let mut code = vec![1u8];
    let mut codes: Vec<Vec<u8>> = vec![Vec::new(); 256];
    traverse(&tree, &mut code, &mut codes);
    assert_eq!(code, vec![1]);
    assert_eq!(codes[b'a' as usize], vec![1, 0]);
    assert_eq!(codes[b'b' as usize], vec![1, 1]);
}

#[test]
fn six_symbol_table_gives_the_known_tree() {
    let mut input: Vec<u8> = Vec::new();
    for (s, n) in [(b'a', 45), (b'b', 13), (b'c', 12), (b'd', 16), (b'e', 9), (b'f', 5)] {
        input.extend(std::iter::repeat(s).take(n));
    }
    let tree = build_huffman_tree(&input).unwrap();
    let expected = internal(
        100,
        leaf(b'a', 45),
        internal(
            55,
            internal(25, leaf(b'c', 12), leaf(b'b', 13)),
            internal(30, internal(14, leaf(b'f', 5), leaf(b'e', 9)), leaf(b'd', 16)),
        ),
    );
    assert_eq!(tree, expected);
    let codes = generate_huffman_codes(&tree);
    assert_eq!(codes.code(b'a').clone(), vec![0]);
    assert_eq!(codes.code(b'c').clone(), vec![1, 0, 0]);
    assert_eq!(codes.code(b'b').clone(), vec![1, 0, 1]);
    assert_eq!(codes.code(b'f').clone(), vec![1, 1, 0, 0]);
    assert_eq!(codes.code(b'e').clone(), vec![1, 1, 0, 1]);
    assert_eq!(codes.code(b'd').clone(), vec![1, 1, 1]);
    // 45*1 + 13*3 + 12*3 + 16*3 + 9*4 + 5*4 is the known minimum, 224.
    assert_eq!(encode(&input, &codes).unwrap().len(), 224);
}
