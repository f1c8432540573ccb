use librezip::guess::{max_distance, outside_range, Key, ThreePeek};
use librezip::wams::{configurations, greedy, lookahead, LookaheadConfig, Tweaks};
use librezip::Code::Literal as L;
use librezip::Code::Reference as R;
use librezip::{u16_from, usize_from};

#[test]
fn three() {
    let a: Vec<u8> = (0..7).collect();
    let mut it = ThreePeek::new(a);
    assert_eq!(Some(0), it.next());
    assert_eq!(Some((1, 2, 3)), it.next_three());
    assert_eq!(Some(2), it.next());
    assert_eq!(Some(3), it.next());
    assert_eq!(Some((4, 5, 6)), it.next_three());
    assert_eq!(None, it.next_three());
    assert_eq!(Some(5), it.next());
}

#[test]
fn three_runs_out() {
    let mut it = ThreePeek::new(vec![b'x', b'y']);
    assert_eq!(None, it.next_three());
    assert_eq!(Some(b'x'), it.next());
    assert_eq!(Some(b'y'), it.next());
    assert_eq!(None, it.next());
    assert_eq!(None, it.next_three());
}

#[test]
fn key_gives_out_its_oldest_byte() {
    let mut key = Key::default();
    assert_eq!(0, key.push(b'a'));
    assert_eq!(0, key.push(b'b'));
    assert_eq!(0, key.push(b'c'));
    assert_eq!([b'a', b'b', b'c'], key.vals);
    assert_eq!(b'a', key.push(b'd'));
    assert_eq!([b'b', b'c', b'd'], key.vals);
}

#[test]
fn max_distance_is_the_greatest() {
    assert_eq!(None, max_distance(&[]));
    assert_eq!(None, max_distance(&[L(1), L(2)]));
    let codes = [
        L(b'a'),
        R {
            dist: 6,
            run_minus_3: 2,
        },
        R {
            dist: 14,
            run_minus_3: 0,
        },
        L(b'b'),
        R {
            dist: 3,
            run_minus_3: 9,
        },
    ];
    assert_eq!(Some(14), max_distance(&codes));
    assert_eq!(Some(6), max_distance(&codes[..2]));
}

#[test]
fn outside_range_holds_distance_against_place() {
    assert!(!outside_range(&[]));
    assert!(!outside_range(&[L(1), L(2)]));
    let at_two = R {
        dist: 2,
        run_minus_3: 0,
    };
    assert!(outside_range(&[L(1), L(2), at_two]));
    assert!(!outside_range(&[L(1), L(2), L(3), at_two]));
    assert!(outside_range(&[at_two]));
}

#[test]
fn nine_levels() {
    let all = configurations();
    assert_eq!(9, all.len());
    assert_eq!(greedy(8, 4, 4), all[0]);
    assert_eq!(greedy(16, 8, 5), all[1]);
    assert_eq!(greedy(32, 32, 6), all[2]);
    assert_eq!(lookahead(16, 16, 4, 4), all[3]);
    assert_eq!(lookahead(32, 32, 8, 16), all[4]);
    assert_eq!(lookahead(128, 128, 8, 16), all[5]);
    assert_eq!(lookahead(128, 256, 8, 32), all[6]);
    assert_eq!(lookahead(258, 1024, 32, 128), all[7]);
    assert_eq!(lookahead(258, 4096, 32, 258), all[8]);
}

#[test]
fn policies_hold_what_they_were_given() {
    let g = greedy(8, 4, 5);
    assert_eq!(8, g.quit_search_above_length);
    assert_eq!(4, g.limit_count_of_distances);
    assert_eq!(Tweaks::InsertOnlyBelowLength(5), g.tweaks);
    let l = lookahead(258, 4096, 32, 128);
    assert_eq!(258, l.quit_search_above_length);
    assert_eq!(4096, l.limit_count_of_distances);
    assert_eq!(
        Tweaks::Lookahead(LookaheadConfig {
            apathetic_lookahead_above_length: 32,
            abort_lookahead_above_length: 128,
        }),
        l.tweaks
    );
}

#[test]
fn widths() {
    assert_eq!(65535usize, usize_from(65535));
    assert_eq!(32768u16, u16_from(32768));
}
