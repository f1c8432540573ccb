use librezip::all_refs::sub_range_inclusive as s;
use librezip::all_refs::{pack_key, whole_map, AllRefs};
use librezip::bestguess::sub_range_inclusive as t;
use librezip::bestguess::find_all_options;
use librezip::circles::CircularBuffer;
use librezip::Code;

#[test]
fn all_refs_sub_range() {
    assert_eq!(&[5, 6], s(5, 6, &[4, 5, 6, 7]));
    assert_eq!(&[5, 6], s(5, 6, &[5, 6, 7]));
    assert_eq!(&[5, 6], s(5, 6, &[4, 5, 6]));

    assert_eq!(&[5, 6], s(4, 7, &[2, 3, 5, 6, 8, 9]));
    assert_eq!(&[5, 6], s(4, 7, &[5, 6, 8, 9]));
    assert_eq!(&[5, 6], s(4, 7, &[2, 3, 5, 6]));

    assert_eq!(&[0usize; 0], s(7, 8, &[4, 5, 6]));
    assert_eq!(&[0usize; 0], s(7, 8, &[9, 10]));
    assert_eq!(&[0usize; 0], s(7, 8, &[]));
}

#[test]
fn bestguess_sub_range() {
    assert_eq!(&[5, 6], t(5, 6, &[4, 5, 6, 7]));
    assert_eq!(&[5, 6], t(5, 6, &[5, 6, 7]));
    assert_eq!(&[5, 6], t(5, 6, &[4, 5, 6]));

    assert_eq!(&[5, 6], t(4, 7, &[2, 3, 5, 6, 8, 9]));
    assert_eq!(&[5, 6], t(4, 7, &[5, 6, 8, 9]));
    assert_eq!(&[5, 6], t(4, 7, &[2, 3, 5, 6]));

    assert_eq!(&[0usize; 0], t(7, 8, &[4, 5, 6]));
    assert_eq!(&[0usize; 0], t(7, 8, &[9, 10]));
    assert_eq!(&[0usize; 0], t(7, 8, &[]));
}

#[test]
fn sub_range_with_repeats_and_crossed_bounds() {
    assert_eq!(&[5, 5, 5], s(5, 5, &[4, 5, 5, 5, 6]));
    assert_eq!(&[0usize; 0], s(6, 5, &[4, 5, 6, 7]));
    assert_eq!(&[0, 1], s(0, 1, &[0, 1, 2]));
    assert_eq!(&[usize::MAX], s(3, usize::MAX, &[2, usize::MAX]));
}

#[test]
fn buckets_hold_each_place_once_in_order() {
    let map = whole_map(b"ab", b"cabcabc");
    // "abcabcabc": abc at 0, 3, 6; bca at 1, 4; cab at 2, 5
    assert_eq!(3, map.len());
    assert_eq!(Some(&vec![0, 3, 6]), map.get(&pack_key((b'a', b'b', b'c'))));
    assert_eq!(Some(&vec![1, 4]), map.get(&pack_key((b'b', b'c', b'a'))));
    assert_eq!(Some(&vec![2, 5]), map.get(&pack_key((b'c', b'a', b'b'))));
    for bucket in map.values() {
        assert!(bucket.windows(2).all(|w| w[0] < w[1]));
    }
}

#[test]
fn short_input_has_no_buckets() {
    assert!(whole_map(b"a", b"b").is_empty());
    assert!(whole_map(b"", b"").is_empty());
    assert_eq!(1, whole_map(b"", b"abc").len());
}

#[test]
fn pack_key_puts_the_first_byte_highest() {
    assert_eq!(0x010203, pack_key((1, 2, 3)));
    assert_eq!(0xffffff, pack_key((255, 255, 255)));
}

#[test]
fn references_come_nearest_first() {
    let data = b"a12341234bcde_1234x";
    let refs = AllRefs::new(&[], data);
    assert_eq!(19, refs.data_len());
    assert_eq!(Some(vec![]), refs.at(0));
    assert_eq!(Some(vec![]), refs.at(1));
    assert_eq!(Some(vec![(4, 4)]), refs.at(5));
    assert_eq!(Some(vec![(9, 4), (13, 4)]), refs.at(14));
    assert_eq!(Some((9, 4)), refs.first_at(14));
    assert_eq!(None, refs.first_at(1));
    assert_eq!(Some(vec![]), refs.at(16));
    assert_eq!(None, refs.at(17));
    assert_eq!(None, refs.at(18));
    assert_eq!(None, refs.at(19));
    assert_eq!(None, refs.at(usize::MAX));
}

#[test]
fn references_reach_into_the_history() {
    let refs = AllRefs::new(b"stu", b"dudu");
    // "stududu": at 0 of the block nothing before has "dud"
    assert_eq!(Some(vec![]), refs.at(0));
    // at 1, "udu" stood 2 back, half of it in the history
    assert_eq!(Some(vec![(2, 3)]), refs.at(1));
    assert_eq!(b'u', refs.get_at_dist(0, 1));
    assert_eq!(b's', refs.get_at_dist(0, 3));
    assert_eq!(b'd', refs.get_at_dist(1, 1));
    assert_eq!(3, refs.possible_run_length_at(1, 2));
    assert_eq!(Some((b'd', b'u', b'd')), refs.key(0));
    assert_eq!(None, refs.key(2));
}

#[test]
fn runs_stop_at_258_and_at_the_end() {
    let data = vec![7u8; 300];
    let refs = AllRefs::new(&[], &data);
    assert_eq!(Some((1, 258)), refs.first_at(1));
    assert_eq!(Some((1, 258)), refs.first_at(42));
    assert_eq!(Some((1, 257)), refs.first_at(43));
    assert_eq!(Some((1, 3)), refs.first_at(297));
    let all = refs.at(4).unwrap();
    assert_eq!(vec![(1, 258), (2, 258), (3, 258), (4, 258)], all);
}

#[test]
fn references_stay_inside_the_window() {
    let mut data = vec![0u8; 40000];
    for (i, b) in data.iter_mut().enumerate() {
        *b = (i % 251) as u8;
    }
    data[0] = 255;
    data[1] = 254;
    data[2] = 253;
    data.extend_from_slice(&[255, 254, 253]);
    let refs = AllRefs::new(&[], &data);
    // the only other "255 254 253" is 40000 back
    assert_eq!(Some(vec![]), refs.at(40000));
    let near = refs.at(39000).unwrap();
    assert!(!near.is_empty());
    assert!(near.iter().all(|r| 1 <= r.0 && r.0 <= 32768));
    assert!(near.iter().all(|r| 3 <= r.1 && r.1 <= 258));
    assert!(near.windows(2).all(|w| w[0].0 < w[1].0));
}

#[test]
fn cursor_moves_over_the_block() {
    let mut options = find_all_options(b"xy", b"abcabc");
    assert_eq!(2, options.pos());
    assert!(options.can_advance());
    assert_eq!(Code::Literal(b'a'), options.current_literal());
    assert_eq!(Some(vec![]), options.all_candidates());
    options.advance(3);
    assert_eq!(5, options.pos());
    assert_eq!(Some((b'a', b'b', b'c')), options.key());
    assert_eq!(Some(vec![(3, 0)]), options.all_candidates());
    assert_eq!(Some((3, 0)), options.first_candidate());
    assert_eq!(b'c', options.get_at_dist(1));
    assert_eq!(b'y', options.get_at_dist(4));
    assert_eq!(3, options.possible_run_length_at(3));
    options.advance(3);
    assert!(!options.can_advance());
    assert_eq!(None, options.all_candidates());
}

#[test]
fn window_keeps_the_latest_bytes() {
    let mut window = CircularBuffer::with_capacity(4);
    assert_eq!(0, window.len());
    window.extend(b"abc");
    assert_eq!(3, window.len());
    assert_eq!(b'c', window.get_at_dist(1));
    assert_eq!(b'a', window.get_at_dist(3));
    window.append(b'd');
    window.append(b'e');
    assert_eq!(4, window.len());
    assert_eq!(b'e', window.get_at_dist(1));
    assert_eq!(b'b', window.get_at_dist(4));
}

#[test]
fn copy_repeats_itself_past_its_distance() {
    let mut window = CircularBuffer::with_capacity(8);
    window.extend(b"xab");
    let mut out = vec![b'!'];
    window.copy(2, 5, &mut out);
    assert_eq!(b"!ababa".to_vec(), out);
    assert_eq!(b'a', window.get_at_dist(1));
    assert_eq!(b'x', window.get_at_dist(8));
}
