use librezip::bit::{BitReader, BitWriter};
use librezip::guess::{single_block_encode, single_block_mem};
use librezip::huffman::CodeTree;
use librezip::parse::{cl_order_at, dist_parts, parse_deflate, run_parts};
use librezip::serialise::{compressed_block, dist_symbol_of, run_symbol_of};
use librezip::Code::Literal as L;
use librezip::Code::Reference as R;
use librezip::{Block, Error};

/// Collects bits, the lowest bit of each byte first.
struct Bits {
    bytes: Vec<u8>,
    used: usize,
}

impl Bits {
    fn new() -> Bits {
        Bits {
            bytes: Vec::new(),
            used: 0,
        }
    }

    fn bit(&mut self, b: bool) {
        if self.used % 8 == 0 {
            self.bytes.push(0);
        }
        if b {
            let last = self.bytes.len() - 1;
            self.bytes[last] |= 1 << (self.used % 8);
        }
        self.used += 1;
    }

    /// A number, its lowest bit first.
    fn number(&mut self, value: u32, width: u32) {
        for i in 0..width {
            self.bit((value >> i) & 1 == 1);
        }
    }

    /// A code, its highest bit first.
    fn code(&mut self, value: u32, width: u32) {
        for i in (0..width).rev() {
            self.bit((value >> i) & 1 == 1);
        }
    }
}

/// The canonical codes of the lengths, as the format defines them.
fn codes_of(lengths: &[u8]) -> Vec<u32> {
    let mut counts = [0u32; 16];
    for l in lengths {
        counts[*l as usize] += 1;
    }
    counts[0] = 0;
    let mut next = [0u32; 16];
    let mut code = 0;
    for bits in 1..16 {
        code = (code + counts[bits - 1]) << 1;
        next[bits] = code;
    }
    lengths
        .iter()
        .map(|l| {
            let c = next[*l as usize];
            if *l != 0 {
                next[*l as usize] += 1;
            }
            c
        })
        .collect()
}

fn fixed_lengths() -> Vec<u8> {
    let mut v = vec![8u8; 144];
    v.extend(vec![9u8; 112]);
    v.extend(vec![7u8; 24]);
    v.extend(vec![8u8; 8]);
    v
}

fn put(bits: &mut Bits, lengths: &[u8], symbol: usize) {
    let codes = codes_of(lengths);
    bits.code(codes[symbol], lengths[symbol] as u32);
}

#[test]
fn reads_bits_lowest_first() {
    let bytes = [0b1010_0110u8, 0xff, 0x01];
    let mut r = BitReader::new(&bytes);
    assert_eq!(Ok(false), r.read_bit());
    assert_eq!(Ok(true), r.read_bit());
    assert_eq!(Ok(0b1001), r.read_bits(4));
    assert_eq!(Ok(0), r.read_bits(0));
    // two bits of the first byte, then two of the second
    assert_eq!(Ok(0b1110), r.read_bits(4));
    r.align();
    assert_eq!(Ok(1), r.read_bits(8));
    assert_eq!(Err(Error::Truncated), r.read_bit());
    assert_eq!(Err(Error::Truncated), r.read_bits(1));
    assert_eq!(Ok(0), r.read_bits(0));
}

#[test]
fn sixteen_bits_come_low_byte_first() {
    let bytes = [0x34u8, 0x12, 0xff];
    let mut r = BitReader::new(&bytes);
    assert_eq!(Ok(0x1234), r.read_bits(16));
    assert_eq!(Err(Error::Truncated), r.read_bits(9));
    assert_eq!(Ok(0xff), r.read_bits(8));
}

#[test]
fn align_keeps_a_whole_byte() {
    let bytes = [0x00u8, 0x81];
    let mut r = BitReader::new(&bytes);
    r.align();
    assert_eq!(Ok(0), r.read_bits(3));
    r.align();
    r.align();
    assert_eq!(Ok(0x81), r.read_bits(8));
}

#[test]
fn code_tree_refuses_what_is_no_code() {
    assert!(CodeTree::new(&[2, 2, 2, 2]).is_ok());
    assert!(CodeTree::new(&[1, 2, 0, 0]).is_ok());
    assert!(CodeTree::new(&[0, 0, 0]).is_ok());
    assert_eq!(Some(Error::InvalidCodeTable), CodeTree::new(&[16, 1]).err());
    assert_eq!(Some(Error::InvalidCodeTable), CodeTree::new(&[1, 1, 1]).err());
    assert_eq!(Some(Error::InvalidCodeTable), CodeTree::new(&[1, 2, 2, 2]).err());
    assert_eq!(Some(Error::InvalidCodeTable), CodeTree::new(&[0, 1, 0]).err());
    assert!(CodeTree::new(&[0, 2, 0]).is_ok());
}

#[test]
fn code_tree_decodes_canonical_codes() {
    // lengths 2, 1, 3, 3: codes 10, 0, 110, 111
    let lengths = [2u8, 1, 3, 3];
    assert_eq!(vec![0b10, 0b0, 0b110, 0b111], codes_of(&lengths));
    let tree = CodeTree::new(&lengths).ok().unwrap();
    let mut bits = Bits::new();
    for s in [3usize, 0, 1, 1, 2, 0] {
        put(&mut bits, &lengths, s);
    }
    let mut r = BitReader::new(&bits.bytes);
    for s in [3u16, 0, 1, 1, 2, 0] {
        assert_eq!(Ok(s), tree.decode(&mut r));
    }
}

#[test]
fn code_tree_stops_at_the_end_and_at_no_code() {
    let tree = CodeTree::new(&[2u8, 2, 2, 0]).ok().unwrap();
    // 11 is no code of these lengths, and no longer code starts with it
    let ones = [0xffu8, 0xff];
    let mut r = BitReader::new(&ones);
    assert_eq!(Err(Error::InvalidSymbol), tree.decode(&mut r));
    let mut r = BitReader::new(&ones[..1]);
    assert_eq!(Err(Error::Truncated), tree.decode(&mut r));
    let mut r = BitReader::new(&[]);
    assert_eq!(Err(Error::Truncated), tree.decode(&mut r));
}

#[test]
fn run_and_distance_tables() {
    assert_eq!((3, 0), run_parts(257));
    assert_eq!((10, 0), run_parts(264));
    assert_eq!((11, 1), run_parts(265));
    assert_eq!((17, 1), run_parts(268));
    assert_eq!((19, 2), run_parts(269));
    assert_eq!((35, 3), run_parts(273));
    assert_eq!((67, 4), run_parts(277));
    assert_eq!((131, 5), run_parts(281));
    assert_eq!((227, 5), run_parts(284));
    assert_eq!((258, 0), run_parts(285));
    assert_eq!((1, 0), dist_parts(0));
    assert_eq!((4, 0), dist_parts(3));
    assert_eq!((5, 1), dist_parts(4));
    assert_eq!((7, 1), dist_parts(5));
    assert_eq!((9, 2), dist_parts(6));
    assert_eq!((257, 7), dist_parts(16));
    assert_eq!((16385, 13), dist_parts(28));
    assert_eq!((24577, 13), dist_parts(29));
}

#[test]
fn code_length_order() {
    let want = [
        16, 17, 18, 0, 8, 7, 9, 6, 10, 5, 11, 4, 12, 3, 13, 2, 14, 1, 15,
    ];
    for (i, w) in want.iter().enumerate() {
        assert_eq!(*w, cl_order_at(i));
    }
}

#[test]
fn single_literal_in_a_fixed_block() {
    assert_eq!(
        Ok(vec![Block::FixedHuffman(vec![L(b'a')])]),
        parse_deflate(&[0x4b, 0x04, 0x00])
    );
    assert_eq!(
        Ok(vec![Block::FixedHuffman(vec![])]),
        parse_deflate(&[0x03, 0x00])
    );
}

#[test]
fn fixed_block_with_a_reference() {
    let lengths = fixed_lengths();
    let mut bits = Bits::new();
    bits.number(1, 1);
    bits.number(1, 2);
    for b in b"abcdef " {
        put(&mut bits, &lengths, *b as usize);
    }
    // run 5: symbol 259; distance 6: symbol 4 and one bit more, 1
    put(&mut bits, &lengths, 259);
    bits.code(4, 5);
    bits.number(1, 1);
    for b in b"ghi" {
        put(&mut bits, &lengths, *b as usize);
    }
    put(&mut bits, &lengths, 256);
    let exp = vec![
        L(b'a'),
        L(b'b'),
        L(b'c'),
        L(b'd'),
        L(b'e'),
        L(b'f'),
        L(b' '),
        R {
            dist: 6,
            run_minus_3: 2,
        },
        L(b'g'),
        L(b'h'),
        L(b'i'),
    ];
    assert_eq!(Ok(vec![Block::FixedHuffman(exp)]), parse_deflate(&bits.bytes));
}

#[test]
fn longest_run_and_extra_bits() {
    let lengths = fixed_lengths();
    let mut bits = Bits::new();
    bits.number(1, 1);
    bits.number(1, 2);
    put(&mut bits, &lengths, 200);
    // run 258: symbol 285; distance 1: symbol 0
    put(&mut bits, &lengths, 285);
    bits.code(0, 5);
    // run 13 + 1: symbol 266 and one bit more; distance 129 + 5: symbol 14
    // and six bits more
    put(&mut bits, &lengths, 266);
    bits.number(1, 1);
    bits.code(14, 5);
    bits.number(5, 6);
    put(&mut bits, &lengths, 256);
    let exp = vec![
        L(200),
        R {
            dist: 1,
            run_minus_3: 255,
        },
        R {
            dist: 134,
            run_minus_3: 11,
        },
    ];
    assert_eq!(Ok(vec![Block::FixedHuffman(exp)]), parse_deflate(&bits.bytes));
}

#[test]
fn stored_block_then_fixed_block() {
    let mut bytes = vec![0x00, 0x03, 0x00, 0xfc, 0xff, b'a', b'b', b'c'];
    // the last block: a reference over the stored bytes
    let lengths = fixed_lengths();
    let mut bits = Bits::new();
    bits.number(1, 1);
    bits.number(1, 2);
    put(&mut bits, &lengths, 257);
    bits.code(2, 5);
    put(&mut bits, &lengths, 256);
    bytes.extend(&bits.bytes);
    bytes.extend(b"what follows is not read");
    assert_eq!(
        Ok(vec![
            Block::Uncompressed(b"abc".to_vec()),
            Block::FixedHuffman(vec![R {
                dist: 3,
                run_minus_3: 0
            }]),
        ]),
        parse_deflate(&bytes)
    );
}

#[test]
fn stored_block_must_agree_with_itself() {
    assert_eq!(
        Err(Error::InvalidSymbol),
        parse_deflate(&[0x01, 0x03, 0x00, 0xfd, 0xff, b'a', b'b', b'c'])
    );
    assert_eq!(
        Err(Error::Truncated),
        parse_deflate(&[0x01, 0x03, 0x00, 0xfc, 0xff, b'a', b'b'])
    );
    assert_eq!(
        Ok(vec![Block::Uncompressed(vec![])]),
        parse_deflate(&[0x01, 0x00, 0x00, 0xff, 0xff])
    );
}

#[test]
fn reserved_kind_and_short_streams() {
    assert_eq!(Err(Error::ReservedBlockType), parse_deflate(&[0x07]));
    assert_eq!(Err(Error::Truncated), parse_deflate(&[]));
    assert_eq!(Err(Error::Truncated), parse_deflate(&[0x4b]));
    // a block that is not the last, and nothing after it
    assert_eq!(Err(Error::Truncated), parse_deflate(&[0x02, 0x00]));
}

#[test]
fn reference_before_the_start_is_invalid() {
    let lengths = fixed_lengths();
    let mut bits = Bits::new();
    bits.number(1, 1);
    bits.number(1, 2);
    put(&mut bits, &lengths, b'a' as usize);
    put(&mut bits, &lengths, 257);
    bits.code(1, 5);
    put(&mut bits, &lengths, 256);
    assert_eq!(Err(Error::InvalidDistance), parse_deflate(&bits.bytes));
}

#[test]
fn symbols_without_meaning_are_invalid() {
    let lengths = fixed_lengths();
    let mut bits = Bits::new();
    bits.number(1, 1);
    bits.number(1, 2);
    put(&mut bits, &lengths, 286);
    bits.number(0, 16);
    assert_eq!(Err(Error::InvalidSymbol), parse_deflate(&bits.bytes));

    let mut bits = Bits::new();
    bits.number(1, 1);
    bits.number(1, 2);
    put(&mut bits, &lengths, b'a' as usize);
    put(&mut bits, &lengths, 257);
    bits.code(30, 5);
    bits.number(0, 16);
    assert_eq!(Err(Error::InvalidSymbol), parse_deflate(&bits.bytes));
}

/// A block with its own codes for "ab" and a reference of 3 over 2.
fn dynamic_block(bits: &mut Bits) -> usize {
    // code lengths of the literals and lengths: a 1, b 3, end 3, run-3 2
    let mut lit = vec![0u8; 258];
    lit[97] = 1;
    lit[98] = 3;
    lit[256] = 3;
    lit[257] = 2;
    let dist = [0u8, 1, 1];
    // the code that spells them: 0, 1, 2, 3 and 18
    let mut cl = [0u8; 19];
    cl[0] = 2;
    cl[1] = 2;
    cl[2] = 2;
    cl[3] = 3;
    cl[18] = 3;
    bits.number(1, 1);
    bits.number(2, 2);
    let start = bits.used;
    bits.number(258 - 257, 5);
    bits.number(3 - 1, 5);
    bits.number(18 - 4, 4);
    for s in [16, 17, 18, 0, 8, 7, 9, 6, 10, 5, 11, 4, 12, 3, 13, 2, 14, 1] {
        bits.number(cl[s] as u32, 3);
    }
    // 97 zeros, a, b, 157 zeros, end, run-3, then the distances
    put(bits, &cl, 18);
    bits.number(97 - 11, 7);
    put(bits, &cl, 1);
    put(bits, &cl, 3);
    put(bits, &cl, 18);
    bits.number(138 - 11, 7);
    put(bits, &cl, 18);
    bits.number(19 - 11, 7);
    put(bits, &cl, 3);
    put(bits, &cl, 2);
    put(bits, &cl, 0);
    put(bits, &cl, 1);
    put(bits, &cl, 1);
    let header = bits.used - start;
    put(bits, &lit, 97);
    put(bits, &lit, 98);
    put(bits, &lit, 257);
    put(bits, &dist, 1);
    put(bits, &lit, 256);
    header
}

#[test]
fn block_with_its_own_codes() {
    let mut bits = Bits::new();
    let header = dynamic_block(&mut bits);
    let blocks = parse_deflate(&bits.bytes).unwrap();
    assert_eq!(1, blocks.len());
    match &blocks[0] {
        Block::DynamicHuffman { trees, codes } => {
            assert_eq!(
                &vec![
                    L(b'a'),
                    L(b'b'),
                    R {
                        dist: 2,
                        run_minus_3: 0
                    }
                ],
                codes
            );
            assert_eq!(header, trees.len());
            // the header starts with the number of literal lengths less 257
            assert_eq!(&[true, false, false, false, false], &trees[..5]);
        }
        other => panic!("{:?}", other),
    }
}

#[test]
fn over_subscribed_lengths_are_no_code_table() {
    let mut bits = Bits::new();
    bits.number(1, 1);
    bits.number(2, 2);
    bits.number(0, 5);
    bits.number(0, 5);
    bits.number(0, 4);
    for _ in 0..4 {
        bits.number(1, 3);
    }
    bits.number(0, 16);
    assert_eq!(Err(Error::InvalidCodeTable), parse_deflate(&bits.bytes));
}

#[test]
fn repeat_without_a_length_before_it_is_no_code_table() {
    let mut bits = Bits::new();
    bits.number(1, 1);
    bits.number(2, 2);
    bits.number(0, 5);
    bits.number(0, 5);
    bits.number(0, 4);
    // 16 and 17 with one bit each, 18 and 0 without a code
    bits.number(1, 3);
    bits.number(1, 3);
    bits.number(0, 3);
    bits.number(0, 3);
    bits.code(0, 1);
    bits.number(0, 16);
    assert_eq!(Err(Error::InvalidCodeTable), parse_deflate(&bits.bytes));
}

#[test]
fn writer_fills_bytes_from_the_lowest_bit() {
    let mut w = BitWriter::new();
    w.write_bit(false);
    w.write_bit(true);
    w.write_bits(0b1001, 4);
    w.write_bits(0b1110, 4);
    w.align();
    w.align();
    w.write_bits(0x1234, 16);
    w.write_bits(0xffff, 0);
    w.write_bit(true);
    assert_eq!(vec![0b1010_0110u8, 0b11, 0x34, 0x12, 0x01], w.into_inner());
    assert_eq!(Vec::<u8>::new(), BitWriter::new().into_inner());
}

#[test]
fn what_is_written_is_read_again() {
    let values: [(u16, u8); 7] = [
        (1, 1),
        (2, 2),
        (0x155, 9),
        (0, 3),
        (0xffff, 16),
        (5, 7),
        (0x2a, 6),
    ];
    let mut w = BitWriter::new();
    for (v, n) in values {
        w.write_bits(v, n);
    }
    let bytes = w.into_inner();
    assert_eq!((1 + 2 + 9 + 3 + 16 + 7 + 6 + 7) / 8, bytes.len());
    let mut r = BitReader::new(&bytes);
    for (v, n) in values {
        assert_eq!(Ok(v), r.read_bits(n));
    }
    // the last byte was filled up with bits that are not set
    assert_eq!(Ok(0), r.read_bits(4));
    assert_eq!(Err(Error::Truncated), r.read_bit());
}

#[test]
fn find_single_ref_from_file() {
    // the compressed stream of "abcdef bcdefg": one block with the fixed
    // codes
    let lengths = fixed_lengths();
    let mut bits = Bits::new();
    bits.number(1, 1);
    bits.number(1, 2);
    for b in b"abcdef " {
        put(&mut bits, &lengths, *b as usize);
    }
    put(&mut bits, &lengths, 259);
    bits.code(4, 5);
    bits.number(1, 1);
    put(&mut bits, &lengths, b'g' as usize);
    put(&mut bits, &lengths, 256);
    let mut blocks = parse_deflate(&bits.bytes).unwrap();
    match blocks.pop() {
        Some(Block::FixedHuffman(codes)) => {
            assert_eq!(9, codes.len());
            single_block_encode(32, &codes).unwrap()
        }
        _ => unreachable!(),
    }
}

#[test]
fn find_single_lits() {
    let exp = &[
        L(b'a'),
        L(b'b'),
        L(b'c'),
        L(b'd'),
        L(b'e'),
        L(b'f'),
        L(b' '),
        R {
            dist: 6,
            run_minus_3: 2,
        },
        L(b'g'),
        L(b'h'),
        L(b'i'),
    ];
    assert_eq!(exp, single_block_mem(32, exp).unwrap().as_slice());
}

#[test]
fn nearest_reference_is_taken_inside_the_window_only() {
    let exp = [
        L(b'a'),
        L(b'b'),
        L(b'c'),
        L(b'd'),
        L(b'e'),
        L(b'f'),
        L(b' '),
        R {
            dist: 6,
            run_minus_3: 2,
        },
        L(b'g'),
    ];
    let mut plain = Vec::new();
    for b in b"abcdef bcdefg" {
        plain.push(L(*b));
    }
    assert_eq!(Ok(exp.to_vec()), single_block_mem(6, &exp));
    assert_eq!(Ok(plain.clone()), single_block_mem(5, &exp));
    assert_eq!(Ok(exp.to_vec()), single_block_mem(32, &plain));
    assert_eq!(Ok(()), single_block_encode(6, &exp));
    assert_eq!(Err(Error::Inconsistent), single_block_encode(5, &exp));
    assert_eq!(Err(Error::Inconsistent), single_block_encode(32, &plain));
    assert_eq!(Ok(()), single_block_encode(32, &[]));
}

#[test]
fn encoder_that_looks_ahead_is_told_apart() {
    // a123412f41234: the nearest reference at 8 is the "412" of 4 back
    let mut lazy = Vec::new();
    for b in b"a123412f4" {
        lazy.push(L(*b));
    }
    lazy.push(R {
        dist: 8,
        run_minus_3: 1,
    });
    let mut greedy = Vec::new();
    for b in b"a123412f" {
        greedy.push(L(*b));
    }
    greedy.push(R {
        dist: 4,
        run_minus_3: 0,
    });
    greedy.push(L(b'3'));
    greedy.push(L(b'4'));
    assert_eq!(Ok(greedy), single_block_mem(32768, &lazy));
    assert_eq!(Err(Error::Inconsistent), single_block_encode(32768, &lazy));
}

#[test]
fn tokens_that_reach_before_the_start_are_not_encoded() {
    let bad = [
        L(b'a'),
        R {
            dist: 2,
            run_minus_3: 0,
        },
    ];
    assert_eq!(Err(Error::InvalidDistance), single_block_mem(32, &bad));
    assert_eq!(Err(Error::InvalidDistance), single_block_encode(32, &bad));
}

/// Reads a stream and writes its blocks again.
fn again(stream: &[u8]) -> Vec<u8> {
    let blocks = parse_deflate(stream).unwrap();
    let mut w = BitWriter::new();
    let n = blocks.len();
    for (i, block) in blocks.iter().enumerate() {
        w.write_bit(i + 1 == n);
        compressed_block(&mut w, block).unwrap();
    }
    w.align();
    w.into_inner()
}

#[test]
fn fixed_blocks_are_written_as_they_were_read() {
    assert_eq!(vec![0x4b, 0x04, 0x00], again(&[0x4b, 0x04, 0x00]));
    assert_eq!(vec![0x03, 0x00], again(&[0x03, 0x00]));

    let lengths = fixed_lengths();
    let mut bits = Bits::new();
    bits.number(1, 1);
    bits.number(1, 2);
    for b in b"abcdef " {
        put(&mut bits, &lengths, *b as usize);
    }
    put(&mut bits, &lengths, 259);
    bits.code(4, 5);
    bits.number(1, 1);
    put(&mut bits, &lengths, 200);
    put(&mut bits, &lengths, 285);
    bits.code(0, 5);
    put(&mut bits, &lengths, 266);
    bits.number(1, 1);
    bits.code(14, 5);
    bits.number(5, 6);
    put(&mut bits, &lengths, 284);
    bits.number(30, 5);
    bits.code(15, 5);
    bits.number(63, 6);
    put(&mut bits, &lengths, 256);
    let blocks = parse_deflate(&bits.bytes).unwrap();
    match &blocks[0] {
        Block::FixedHuffman(codes) => assert_eq!(
            Some(&R {
                dist: 256,
                run_minus_3: 254
            }),
            codes.last()
        ),
        other => panic!("{:?}", other),
    }
    assert_eq!(bits.bytes, again(&bits.bytes));
}

#[test]
fn stored_and_own_codes_are_written_as_they_were_read() {
    let mut bits = Bits::new();
    bits.number(0, 1);
    bits.number(0, 2);
    bits.number(0, 5);
    bits.number(3, 16);
    bits.number(0xfffc, 16);
    for b in b"aba" {
        bits.number(*b as u32, 8);
    }
    dynamic_block(&mut bits);
    let blocks = parse_deflate(&bits.bytes).unwrap();
    assert_eq!(2, blocks.len());
    assert_eq!(Block::Uncompressed(b"aba".to_vec()), blocks[0]);
    assert_eq!(bits.bytes, again(&bits.bytes));
}

#[test]
fn symbols_of_runs_and_distances() {
    assert_eq!((257, 0), run_symbol_of(3));
    assert_eq!((264, 0), run_symbol_of(10));
    assert_eq!((265, 1), run_symbol_of(12));
    assert_eq!((266, 1), run_symbol_of(14));
    assert_eq!((284, 30), run_symbol_of(257));
    assert_eq!((285, 0), run_symbol_of(258));
    assert_eq!((0, 0), dist_symbol_of(1));
    assert_eq!((3, 0), dist_symbol_of(4));
    assert_eq!((4, 1), dist_symbol_of(6));
    assert_eq!((14, 5), dist_symbol_of(134));
    assert_eq!((29, 8191), dist_symbol_of(32768));
}

#[test]
fn blocks_that_cannot_be_written() {
    let mut w = BitWriter::new();
    let big = Block::Uncompressed(vec![0u8; 65536]);
    assert_eq!(Err(Error::InvalidSymbol), compressed_block(&mut w, &big));
    let no_header = Block::DynamicHuffman {
        trees: vec![true, false],
        codes: vec![],
    };
    assert_eq!(Err(Error::Truncated), compressed_block(&mut w, &no_header));
    let no_distance = Block::FixedHuffman(vec![R {
        dist: 0,
        run_minus_3: 0,
    }]);
    assert_eq!(Err(Error::InvalidSymbol), compressed_block(&mut w, &no_distance));
    // only the two bits of the kind of the last block were written
    assert_eq!(vec![0x01], w.into_inner());

    // a block with its own codes has none for "c"
    let mut bits = Bits::new();
    dynamic_block(&mut bits);
    let mut blocks = parse_deflate(&bits.bytes).unwrap();
    match blocks.pop() {
        Some(Block::DynamicHuffman { trees, mut codes }) => {
            codes.push(L(b'c'));
            let mut w = BitWriter::new();
            assert_eq!(
                Err(Error::InvalidSymbol),
                compressed_block(&mut w, &Block::DynamicHuffman { trees, codes })
            );
        }
        _ => unreachable!(),
    }
}
