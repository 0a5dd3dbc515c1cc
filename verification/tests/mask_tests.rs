use filler::mask::Mask;
use rand::SeedableRng;
use rand_pcg::Pcg64;

#[test]
fn empty_and_full_counts() {
    assert_eq!(Mask::empty().count_ones(), 0);
    assert_eq!(Mask::full().count_ones(), 256);
    assert!(Mask::empty().is_empty());
    assert!(!Mask::empty().is_full());
    assert!(Mask::full().is_full());
    assert!(!Mask::full().is_empty());
}

#[test]
fn one_hot_sets_exactly_one_cell() {
    let m = Mask::one_hot(3, 5);
    assert_eq!(m.count_ones(), 1);
    for r in 0..16 {
        for c in 0..16 {
            assert_eq!(m.get(r, c), r == 3 && c == 5);
        }
    }
}

#[test]
fn set_algebra_on_two_cells() {
    let a = Mask::one_hot(0, 0).or(Mask::one_hot(7, 9));
    let b = Mask::one_hot(7, 9).or(Mask::one_hot(15, 15));
    assert_eq!(a.and(b), Mask::one_hot(7, 9));
    assert_eq!(a.or(b).count_ones(), 3);
    assert_eq!(a.xor(b).count_ones(), 2);
    assert_eq!(a.and_not(b), Mask::one_hot(0, 0));
    assert_eq!(a.not().count_ones(), 254);
    assert!(a.not().and(a).is_empty());
}

#[test]
fn shifts_move_one_cell() {
    let m = Mask::one_hot(3, 5);
    assert_eq!(m.shift_left(), Mask::one_hot(3, 6));
    assert_eq!(m.shift_right(), Mask::one_hot(3, 4));
    assert_eq!(m.shift_up(), Mask::one_hot(2, 5));
    assert_eq!(m.shift_down(), Mask::one_hot(4, 5));
}

#[test]
fn shifts_drop_cells_at_the_edges() {
    assert!(Mask::one_hot(3, 15).shift_left().is_empty());
    assert!(Mask::one_hot(3, 0).shift_right().is_empty());
    assert!(Mask::one_hot(0, 5).shift_up().is_empty());
    assert!(Mask::one_hot(15, 5).shift_down().is_empty());
}

#[test]
fn neighbors_of_corner_and_center() {
    let corner = Mask::one_hot(0, 0).neighbors();
    assert_eq!(corner.count_ones(), 2);
    assert!(corner.get(0, 1) && corner.get(1, 0));
    let center = Mask::one_hot(8, 8).neighbors();
    assert_eq!(center.count_ones(), 4);
    assert!(center.get(7, 8) && center.get(9, 8) && center.get(8, 7) && center.get(8, 9));
    assert!(!center.get(8, 8));
}

#[test]
fn neighbors2_reaches_two_steps() {
    let center = Mask::one_hot(8, 8).neighbors2();
    assert_eq!(center.count_ones(), 12);
    assert!(center.get(6, 8) && center.get(10, 8) && center.get(8, 6) && center.get(8, 10));
    assert!(center.get(7, 7) && center.get(9, 9) && center.get(7, 9) && center.get(9, 7));
    assert!(!center.get(8, 8));
    let corner = Mask::one_hot(0, 0).neighbors2();
    assert_eq!(corner.count_ones(), 5);
}

#[test]
fn bfs_fills_a_corridor_and_stops_at_gaps() {
    let acc = Mask::one_hot(0, 1).or(Mask::one_hot(0, 2)).or(Mask::one_hot(5, 5));
    let filled = Mask::one_hot(0, 0).bfs(acc);
    assert_eq!(filled.count_ones(), 3);
    assert!(filled.get(0, 0) && filled.get(0, 1) && filled.get(0, 2));
    assert!(!filled.get(5, 5));
}

#[test]
fn bfs_is_idempotent() {
    let acc = Mask::one_hot(2, 2)
        .or(Mask::one_hot(2, 3))
        .or(Mask::one_hot(3, 3))
        .or(Mask::one_hot(9, 9));
    let once = Mask::one_hot(2, 1).bfs(acc);
    let twice = once.bfs(acc);
    assert_eq!(once, twice);
}

#[test]
fn bfs_over_full_grid_reaches_everything() {
    assert!(Mask::one_hot(4, 11).bfs(Mask::full()).is_full());
}

#[test]
fn closer_splits_by_path_distance() {
    // Two single-cell sources at odd Manhattan distance over an otherwise
    // free grid: no cell is contested, and every other cell belongs to the
    // side it is strictly closer to.
    let s1 = (2i32, 3i32);
    let s2 = (10i32, 12i32);
    let a = Mask::one_hot(s1.0 as usize, s1.1 as usize);
    let b = Mask::one_hot(s2.0 as usize, s2.1 as usize);
    let acc = Mask::full().and_not(a).and_not(b);
    let (mine, contested, theirs) = a.closer(b, acc);
    assert!(contested.is_empty());
    for r in 0..16i32 {
        for c in 0..16i32 {
            if (r, c) == s1 || (r, c) == s2 {
                continue;
            }
            let d1 = (r - s1.0).abs() + (c - s1.1).abs();
            let d2 = (r - s2.0).abs() + (c - s2.1).abs();
            if d1 < d2 {
                assert!(mine.get(r as usize, c as usize));
                assert!(!theirs.get(r as usize, c as usize));
            } else {
                assert!(theirs.get(r as usize, c as usize));
                assert!(!mine.get(r as usize, c as usize));
            }
        }
    }
}

#[test]
fn closer_marks_equidistant_cells_contested() {
    // Sources at even Manhattan distance on one row: the midpoint column
    // is contested.
    let a = Mask::one_hot(0, 0);
    let b = Mask::one_hot(0, 4);
    let acc = Mask::full().and_not(a).and_not(b);
    let (mine, contested, theirs) = a.closer(b, acc);
    assert!(contested.get(0, 2));
    assert!(mine.get(0, 1) && theirs.get(0, 3));
    assert!(!mine.get(0, 2) && !theirs.get(0, 2));
}

#[test]
fn score_sums_weights_of_set_cells() {
    let mut weights = [[0u8; 16]; 16];
    weights[2][3] = 7;
    weights[5][5] = 11;
    weights[15][15] = 200;
    let m = Mask::one_hot(2, 3).or(Mask::one_hot(15, 15));
    assert_eq!(m.score(&weights), 207);
    assert_eq!(Mask::empty().score(&weights), 0);
    let ones = [[1u8; 16]; 16];
    assert_eq!(Mask::full().score(&ones), 256);
}

#[test]
fn flips_mirror_the_grid() {
    assert_eq!(Mask::one_hot(0, 0).flip_horizontal(), Mask::one_hot(0, 15));
    assert_eq!(Mask::one_hot(0, 0).flip_vertical(), Mask::one_hot(15, 0));
    assert_eq!(Mask::one_hot(0, 0).flip(), Mask::one_hot(15, 15));
    assert_eq!(Mask::one_hot(3, 5).flip(), Mask::one_hot(12, 10));
    assert!(Mask::full().flip().is_full());
}

#[test]
fn get_kth_one_picks_bits_in_order() {
    let mask: u64 = 0b101001;
    assert_eq!(filler::mask::get_kth_one(mask, 0), 1 << 0);
    assert_eq!(filler::mask::get_kth_one(mask, 1), 1 << 3);
    assert_eq!(filler::mask::get_kth_one(mask, 2), 1 << 5);
    assert_eq!(filler::mask::get_kth_one(1 << 63, 0), 1 << 63);
}

#[test]
fn sample_returns_one_cell_of_the_set() {
    let mut rng = Pcg64::seed_from_u64(42);
    let m = Mask::one_hot(1, 2).or(Mask::one_hot(9, 9)).or(Mask::one_hot(15, 0));
    for _ in 0..20 {
        let picked = m.sample(&mut rng);
        assert_eq!(picked.count_ones(), 1);
        assert_eq!(picked.and(m), picked);
    }
}

#[test]
fn sample_of_singleton_is_that_cell() {
    let mut rng = Pcg64::seed_from_u64(7);
    let m = Mask::one_hot(6, 6);
    assert_eq!(m.sample(&mut rng), m);
}

#[test]
fn random_is_deterministic_per_seed() {
    let mut rng1 = Pcg64::seed_from_u64(5);
    let mut rng2 = Pcg64::seed_from_u64(5);
    assert_eq!(Mask::random(&mut rng1), Mask::random(&mut rng2));
}
