use librezip::all_refs::AllRefs;
use librezip::bestguess::{increase_entropy, reduce_entropy};
use librezip::circles::CircularBuffer;
use librezip::serialise::decompressed_codes;
use librezip::Code::Literal as L;
use librezip::Code::Reference as R;
use librezip::{pack_run, Code, Error};

fn decode_then_reencode_single_block(codes: &[Code]) -> Vec<usize> {
    decode_maybe(&[], codes)
}

fn decode(preroll: &[u8], codes: &[Code]) -> Vec<u8> {
    let mut data = Vec::with_capacity(codes.len());
    let mut prebuf = CircularBuffer::with_capacity(32 * 1024);
    prebuf.extend(preroll);
    decompressed_codes(&mut data, &mut prebuf, codes).unwrap();
    data
}

fn decode_maybe(preroll: &[u8], codes: &[Code]) -> Vec<usize> {
    let data = decode(preroll, codes);
    let reduced = reduce_entropy(preroll, &data, codes).unwrap();
    assert_eq!(
        codes,
        increase_entropy(preroll, &data, &reduced).unwrap().as_slice()
    );
    reduced
}

fn literals(text: &[u8]) -> Vec<Code> {
    text.iter().map(|b| L(*b)).collect()
}

#[test]
fn re_1_single_backref_abcdef_bcdefghi() {
    let exp = &[
        L(b'a'),
        L(b'b'),
        L(b'c'),
        L(b'd'),
        L(b'e'),
        L(b'f'),
        L(b' '),
        R {
            dist: 6,
            run_minus_3: 2,
        },
        L(b'g'),
        L(b'h'),
        L(b'i'),
    ];

    assert_eq!(vec![0], decode_then_reencode_single_block(exp));
}

#[test]
fn re_1_decodes_to_the_text() {
    let mut exp = literals(b"abcdef ");
    exp.push(R {
        dist: 6,
        run_minus_3: 2,
    });
    exp.extend(literals(b"ghi"));
    assert_eq!(b"abcdef bcdefghi".to_vec(), decode(&[], &exp));
}

#[test]
fn re_2_two_length_three_runs() {
    let exp = &[
        L(b'a'),
        L(b'b'),
        L(b'c'),
        L(b'd'),
        L(b'1'),
        L(b'2'),
        L(b'3'),
        L(b'e'),
        L(b'f'),
        L(b'g'),
        L(b'h'),
        L(b'7'),
        L(b'8'),
        L(b'9'),
        L(b'i'),
        L(b'j'),
        L(b'k'),
        L(b'l'),
        R {
            dist: 14,
            run_minus_3: 0,
        },
        L(b'm'),
        L(b'n'),
        L(b'o'),
        L(b'p'),
        R {
            dist: 14,
            run_minus_3: 0,
        },
        L(b'q'),
        L(b'r'),
        L(b's'),
        L(b't'),
    ];

    assert_eq!(vec![0, 0], decode_then_reencode_single_block(exp));
}

#[test]
fn re_3_two_overlapping_runs() {
    let exp = &[
        L(b'a'),
        L(b'1'),
        L(b'2'),
        L(b'3'),
        L(b'b'),
        L(b'c'),
        L(b'd'),
        R {
            dist: 6,
            run_minus_3: 0,
        },
        L(b'4'),
        L(b'5'),
        L(b'e'),
        L(b'f'),
        R {
            dist: 5,
            run_minus_3: 0,
        },
        L(b'g'),
    ];

    assert_eq!(vec![0, 0], decode_then_reencode_single_block(exp));
}

#[test]
fn re_4_zero_run() {
    let exp = &[
        L(b'0'),
        R {
            dist: 1,
            run_minus_3: 10,
        },
    ];
    assert_eq!(vec![0], decode_then_reencode_single_block(exp));
}

#[test]
fn re_5_ref_before() {
    let exp = &[R {
        dist: 1,
        run_minus_3: pack_run(13),
    }];
    assert_eq!(
        exp.iter().map(|_| 0usize).collect::<Vec<usize>>(),
        decode_maybe(&[0], exp)
    );
}

#[test]
fn re_11_ref_long_before() {
    let exp = &[
        L(b'a'),
        L(b'b'),
        L(b'c'),
        L(b'd'),
        R {
            dist: 7,
            run_minus_3: pack_run(13),
        },
    ];
    assert_eq!(
        &[0],
        decode_maybe(&[b'q', b'r', b's', b't', b'u'], exp).as_slice()
    );
}

#[test]
fn re_12_ref_over_edge() {
    let exp = &[
        L(b'd'),
        R {
            dist: 2,
            run_minus_3: pack_run(3),
        },
    ];
    assert_eq!(&[0], decode_maybe(&[b's', b't', b'u'], exp).as_slice());
}

// Where the reference over one byte that runs for 258 is open it is taken
// without a hint, so these streams have none.

#[test]
fn re_6_just_long_run() {
    let exp = &[
        L(5),
        R {
            dist: 1,
            run_minus_3: pack_run(258),
        },
    ];

    assert_eq!(Vec::<usize>::new(), decode_then_reencode_single_block(exp));
}

#[test]
fn re_7_two_long_run() {
    let exp = &[
        L(5),
        R {
            dist: 1,
            run_minus_3: pack_run(258),
        },
        R {
            dist: 1,
            run_minus_3: pack_run(258),
        },
    ];

    assert_eq!(Vec::<usize>::new(), decode_then_reencode_single_block(exp));
}

#[test]
fn re_8_many_long_run() {
    const ENOUGH_TO_WRAP_AROUND: usize = 10 + (32 * 1024 / 258);

    let mut exp = Vec::with_capacity(ENOUGH_TO_WRAP_AROUND + 1);

    exp.push(L(5));

    exp.extend(vec![
        R {
            dist: 1,
            run_minus_3: pack_run(258),
        };
        ENOUGH_TO_WRAP_AROUND
    ]);

    assert_eq!(137, ENOUGH_TO_WRAP_AROUND);
    let data = decode(&[], &exp);
    assert_eq!(1 + 137 * 258, data.len());
    assert_eq!(Vec::<usize>::new(), decode_then_reencode_single_block(&exp));
}

#[test]
fn re_9_longer_match() {
    let exp = &[
        L(b'a'),
        L(b'1'),
        L(b'2'),
        L(b'3'),
        L(b'4'),
        R {
            dist: 4,
            run_minus_3: pack_run(3),
        },
        R {
            dist: 7,
            run_minus_3: pack_run(4),
        },
    ];

    assert_eq!(vec![0, 0], decode_then_reencode_single_block(exp));
}

#[test]
fn short_repeat() {
    let exp = &[
        L(b'a'),
        R {
            dist: 1,
            run_minus_3: pack_run(3),
        },
    ];

    assert_eq!(vec![0], decode_then_reencode_single_block(exp));
}

#[test]
fn re_10_repeat_after_ref_a122b_122_222() {
    // a122b122222
    // 01234567890

    let exp = &[
        L(b'a'),
        L(b'1'),
        L(b'2'),
        L(b'2'),
        L(b'b'),
        R {
            dist: 4,
            run_minus_3: pack_run(3),
        },
        R {
            dist: 1,
            run_minus_3: pack_run(3),
        },
    ];

    assert_eq!(vec![0, 0], decode_then_reencode_single_block(exp));
}

#[test]
fn lazy_longer_ref() {
    // a123412f41234
    // 0123456789012

    // At position 8 the "412" of position 4 is passed over for a literal,
    // and the longer run of "1234" at position 1 is taken after it.

    let exp = &[
        L(b'a'),
        L(b'1'),
        L(b'2'),
        L(b'3'),
        L(b'4'),
        L(b'1'),
        L(b'2'),
        L(b'f'),
        L(b'4'),
        R {
            dist: 8,
            run_minus_3: pack_run(4),
        },
    ];

    assert_eq!(&[1, 0], decode_then_reencode_single_block(exp).as_slice());
}

#[test]
fn repeated_text_is_found_at_its_first_occurrence() {
    // a12341234bcde_12341234_fgh
    let mut exp = literals(b"a1234");
    exp.push(R {
        dist: 4,
        run_minus_3: pack_run(4),
    });
    exp.extend(literals(b"bcde_"));
    exp.push(R {
        dist: 13,
        run_minus_3: pack_run(8),
    });
    exp.extend(literals(b"_fgh"));
    assert_eq!(b"a12341234bcde_12341234_fgh".to_vec(), decode(&[], &exp));
    assert_eq!(vec![0, 0], decode_then_reencode_single_block(&exp));
}

#[test]
fn shorter_nearer_run_ranks_after_the_literal() {
    // a12341234bcde_1234x: at 14 the run of 4 from 9 back is preferred to
    // the one from 13 back, which so has place 1 and hint 2.
    let mut exp = literals(b"a1234");
    exp.push(R {
        dist: 4,
        run_minus_3: pack_run(4),
    });
    exp.extend(literals(b"bcde_"));
    exp.push(R {
        dist: 13,
        run_minus_3: pack_run(4),
    });
    exp.extend(literals(b"x"));
    assert_eq!(vec![0, 2], decode_then_reencode_single_block(&exp));
}

#[test]
fn ten_kilobytes_of_one_byte() {
    let runs = 39;
    let mut exp = vec![L(b'b')];
    exp.extend(vec![
        R {
            dist: 1,
            run_minus_3: 255,
        };
        runs
    ]);
    let data = decode(&[], &exp);
    assert_eq!(1 + 258 * runs, data.len());
    assert!(data.iter().all(|b| *b == b'b'));
    let hints = reduce_entropy(&[], &data, &exp).unwrap();
    assert!(hints.is_empty());
    assert_eq!(exp, increase_entropy(&[], &data, &hints).unwrap());
}

#[test]
fn short_last_run_needs_a_hint() {
    let mut exp = vec![L(b'b')];
    exp.push(R {
        dist: 1,
        run_minus_3: 255,
    });
    exp.push(R {
        dist: 1,
        run_minus_3: pack_run(177),
    });
    assert_eq!(vec![0], decode_then_reencode_single_block(&exp));
}

#[test]
fn reference_with_nothing_open_is_inconsistent() {
    let codes = [R {
        dist: 1,
        run_minus_3: 0,
    }];
    assert_eq!(
        Err(Error::Inconsistent),
        reduce_entropy(&[], b"abcdef", &codes)
    );
}

#[test]
fn reference_not_open_is_not_in_candidates() {
    // at 3 only (3, 3) is open
    let mut codes = literals(b"abc");
    codes.push(R {
        dist: 2,
        run_minus_3: 0,
    });
    assert_eq!(
        Err(Error::NotInCandidates),
        reduce_entropy(&[], b"abcabc", &codes)
    );
    codes[3] = R {
        dist: 3,
        run_minus_3: 0,
    };
    assert_eq!(Ok(vec![0]), reduce_entropy(&[], b"abcabc", &codes));
}

#[test]
fn missing_hint_is_truncated() {
    assert_eq!(Err(Error::Truncated), increase_entropy(&[], b"abcabc", &[]));
}

#[test]
fn hint_beyond_the_open_references_is_not_in_candidates() {
    assert_eq!(
        Err(Error::NotInCandidates),
        increase_entropy(&[], b"abcabc", &[3])
    );
    assert_eq!(
        Err(Error::NotInCandidates),
        increase_entropy(&[], b"abcabc", &[2])
    );
}

#[test]
fn hint_one_is_the_literal() {
    let codes = increase_entropy(&[], b"abcabc", &[1]).unwrap();
    assert_eq!(literals(b"abcabc"), codes);
    assert_eq!(Ok(vec![1]), reduce_entropy(&[], b"abcabc", &codes));
}

#[test]
fn hints_come_back_from_their_tokens() {
    let data = b"a12341234bcde_1234x";
    for hints in [vec![0, 0], vec![1, 1, 0], vec![0, 2], vec![1, 1, 1, 1]] {
        let codes = increase_entropy(&[], data, &hints).unwrap();
        assert_eq!(data.to_vec(), decode(&[], &codes));
        assert_eq!(Ok(hints), reduce_entropy(&[], data, &codes));
    }
}

#[test]
fn empty_block_has_no_tokens() {
    assert_eq!(Ok(vec![]), increase_entropy(&[], &[], &[]));
    assert_eq!(Ok(vec![]), reduce_entropy(&[], &[], &[]));
}

#[test]
fn distance_beyond_the_window_is_invalid() {
    let mut data = Vec::new();
    let mut window = CircularBuffer::with_capacity(32 * 1024);
    let codes = [
        L(b'a'),
        R {
            dist: 2,
            run_minus_3: 0,
        },
    ];
    assert_eq!(
        Err(Error::InvalidDistance),
        decompressed_codes(&mut data, &mut window, &codes)
    );
    assert_eq!(b"a".to_vec(), data);
    let zero = [R {
        dist: 0,
        run_minus_3: 0,
    }];
    assert_eq!(
        Err(Error::InvalidDistance),
        decompressed_codes(&mut data, &mut window, &zero)
    );
}

#[test]
fn pack_run_is_run_less_three() {
    assert_eq!(0, pack_run(3));
    assert_eq!(10, pack_run(13));
    assert_eq!(255, pack_run(258));
    assert_eq!(255, pack_run(300));
}

#[test]
fn emitted_bytes_of_tokens() {
    assert_eq!(1, L(b'x').emitted_bytes());
    assert_eq!(
        258,
        R {
            dist: 1,
            run_minus_3: 255
        }
        .emitted_bytes()
    );
}

#[test]
fn references_of_decoded_tokens_are_open() {
    // a stream whose second reference is shorter than the data lets it be
    let mut codes = literals(b"abcabc");
    codes.push(R {
        dist: 3,
        run_minus_3: 0,
    });
    codes.push(R {
        dist: 6,
        run_minus_3: 1,
    });
    codes.push(L(b'c'));
    let preroll = b"xyz";
    let data = decode(preroll, &codes);
    assert_eq!(b"abcabcabcabcac".to_vec(), data);
    let refs = AllRefs::new(preroll, &data);
    let mut pos = 0;
    for code in &codes {
        if let R { dist, run_minus_3 } = code {
            let open = refs.at(pos).unwrap();
            let found = open.iter().find(|r| r.0 == *dist).unwrap();
            assert_eq!(refs.possible_run_length_at(pos, *dist), found.1);
            assert!(found.1 >= *run_minus_3 as u16 + 3);
        }
        pos += code.emitted_bytes() as usize;
    }
    assert_eq!(data.len(), pos);
    // the shorter run is not what the data lets it be, and so not open
    assert_eq!(
        Err(Error::NotInCandidates),
        reduce_entropy(preroll, &data, &codes)
    );
}
