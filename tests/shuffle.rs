use native_accel::seed_scan::{find_seed_for_layout, scan_seeds, seed_matches, split_layout};
use native_accel::shuffle::{msvc_next, msvc_rand15, precompute_params, shuffle, shuffle_inplace_vec};

fn layout(perm: &[u32], lens: &[i32]) -> Vec<i32> {
    let mut out = vec![0i32; lens.len()];
    let mut o: i32 = 0;
    for &p in perm {
        out[p as usize] = o;
        if lens[p as usize] > 0 {
            o = o.wrapping_add(lens[p as usize]);
        }
    }
    out
}

#[test]
fn lcg_steps() {
    assert_eq!(msvc_next(0), 2531011);
    let mut x: u32 = 0;
    assert_eq!(msvc_rand15(&mut x), 38);
    assert_eq!(x, 2531011);
}

#[test]
fn params_for_small_and_large_counts() {
    let p = precompute_params(5);
    assert_eq!(p.len(), 4);
    assert_eq!((p[0].iu, p[0].chunks, p[0].q1, p[0].r1), (2, 1, 16383, 1));
    assert_eq!((p[3].iu, p[3].chunks, p[3].q1, p[3].r1), (5, 1, 6553, 2));
    assert!(precompute_params(1).is_empty());
    let big = precompute_params(40000);
    assert_eq!(big[39998].iu, 40000);
    assert_eq!(big[39998].chunks, 2);
    assert_eq!(big[39998].q1, 0x3FFF_FFFF / 40000);
}

#[test]
fn shuffle_is_deterministic() {
    let a = shuffle(0, 5);
    let b = shuffle(0, 5);
    assert_eq!(a, b);
    assert_eq!(a.0, vec![2, 0, 4, 1, 3]);
    assert_eq!(a.1, 159719620);
    let mut sorted = a.0.clone();
    sorted.sort();
    assert_eq!(sorted, vec![0, 1, 2, 3, 4]);
}

#[test]
fn shuffle_of_seed_42() {
    let (perm, x) = shuffle(42, 6);
    assert_eq!(perm, vec![0, 4, 1, 5, 3, 2]);
    assert_eq!(x, 1054043289);
}

#[test]
fn shuffle_short_lists_stay() {
    assert_eq!(shuffle(7, 1), (vec![0], 7));
    assert_eq!(shuffle(7, 0), (vec![], 7));
}

#[test]
fn shuffle_is_permutation_for_many_sizes() {
    for n in 0..60usize {
        let (perm, _) = shuffle(n as u32 * 977, n);
        let mut seen = vec![false; n];
        for &p in &perm {
            assert!(!seen[p as usize]);
            seen[p as usize] = true;
        }
        assert_eq!(perm.len(), n);
    }
}

#[test]
fn shuffle_inplace_moves_items() {
    let params = precompute_params(5);
    let mut a = vec![10, 11, 12, 13, 14];
    let x = shuffle_inplace_vec(0, &mut a, &params);
    assert_eq!(a, vec![12, 10, 14, 11, 13]);
    assert_eq!(x, 159719620);
}

#[test]
fn seed_matches_its_own_layout() {
    let lens = vec![3, 0, 5, 2, 0, 7];
    let (perm, _) = shuffle(42, 6);
    let target = layout(&perm, &lens);
    assert_eq!(target, vec![0, 3, 12, 10, 3, 3]);
    let params = precompute_params(6);
    let mut buf = vec![0u32; 6];
    let mut ofs = vec![0i32; 6];
    assert!(seed_matches(42, &params, &lens, &target, &mut buf, &mut ofs));
    assert!(!seed_matches(41, &params, &lens, &target, &mut buf, &mut ofs));
}

#[test]
fn scan_finds_seed_42() {
    let lens = vec![3, 0, 5, 2, 0, 7];
    let (perm, _) = shuffle(42, 6);
    let ofs = layout(&perm, &lens);
    let target: Vec<(i32, i32)> = ofs.iter().zip(lens.iter()).map(|(&o, &l)| (o, l)).collect();
    assert_eq!(find_seed_for_layout(&target, 0), Some(42));
}

#[test]
fn scan_range_without_match_is_none() {
    let lens = vec![3, 0, 5, 2, 0, 7];
    let (perm, _) = shuffle(42, 6);
    let target = layout(&perm, &lens);
    let params = precompute_params(6);
    assert_eq!(scan_seeds(0, 0, 42, &params, &lens, &target), None);
    assert_eq!(scan_seeds(0, 0, 43, &params, &lens, &target), Some(42));
    assert_eq!(scan_seeds(40, 2, 3, &params, &lens, &target), Some(42));
}

#[test]
fn scan_seed_wraps_around() {
    let lens = vec![1, 2, 3, 4];
    let (perm, _) = shuffle(5, 4);
    let target = layout(&perm, &lens);
    let params = precompute_params(4);
    let r = scan_seeds(u32::MAX - 2, 0, 100, &params, &lens, &target).unwrap();
    assert_eq!(layout(&shuffle(r, 4).0, &lens), target);
}

#[test]
fn short_layout_at_offset_zero_fits_first_seed() {
    assert_eq!(find_seed_for_layout(&vec![(0, 1)], 9), Some(9));
    assert_eq!(find_seed_for_layout(&vec![], 3), Some(3));
}

#[test]
fn one_entry_at_nonzero_offset_never_fits() {
    let params = precompute_params(1);
    assert_eq!(scan_seeds(0, 0, 5000, &params, &vec![1], &vec![5]), None);
}

#[test]
fn split_layout_parts() {
    let (o, l) = split_layout(&vec![(1, 2), (3, 4)]);
    assert_eq!(o, vec![1, 3]);
    assert_eq!(l, vec![2, 4]);
}
