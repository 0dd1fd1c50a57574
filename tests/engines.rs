use matrix_multiply::{
    init, matmul, multiply_heap, multiply_stable, multiply_stable_old, update_empty, Canister,
    CapacityError, PreconditionViolation,
};

fn expected_row(a: &[i32], b: &[i32], row: usize) -> i32 {
    let n = b.len();
    let mut acc: i32 = 0;
    for j in 0..n {
        acc = acc.wrapping_add(a[row * n + j].wrapping_mul(b[j]));
    }
    acc
}

fn stored_out(c: &Canister) -> Vec<i32> {
    let n = c.b().len();
    let d = c.out().len();
    let out_addr = (n * d + n) * 4;
    let bytes = c.store().read(out_addr, d * 4);
    bytes
        .chunks(4)
        .map(|w| i32::from_le_bytes([w[0], w[1], w[2], w[3]]))
        .collect()
}

#[test]
fn synthetic_three_by_two() {
    let mut c = init(3, 2, 16).unwrap();
    assert_eq!(c.a().clone(), vec![0, 1, 2, 3, 4, 5]);
    assert_eq!(c.b().clone(), vec![0, 1, 2]);
    assert_eq!(c.out().clone(), vec![0, 0]);
    assert_eq!(matmul::<1>(&mut c), Ok(()));
    assert_eq!(c.out().clone(), vec![5, 14]);
}

#[test]
fn synthetic_three_by_two_in_one_group() {
    let mut c = init(3, 2, 16).unwrap();
    assert_eq!(matmul::<3>(&mut c), Ok(()));
    assert_eq!(c.out().clone(), vec![5, 14]);
}

#[test]
fn group_that_does_not_divide_is_refused() {
    let mut c = init(3, 2, 16).unwrap();
    assert_eq!(matmul::<2>(&mut c), Err(PreconditionViolation));
    assert_eq!(matmul::<0>(&mut c), Err(PreconditionViolation));
    assert_eq!(multiply_heap(&mut c), Err(PreconditionViolation));
    assert_eq!(c.out().clone(), vec![0, 0]);
}

#[test]
fn store_engines_refuse_rows_not_of_four() {
    let mut c = init(3, 2, 16).unwrap();
    let before = c.store().read(0, 65536);
    assert_eq!(multiply_stable(&mut c), Err(PreconditionViolation));
    assert_eq!(multiply_stable_old(&mut c), Err(PreconditionViolation));
    assert_eq!(c.store().read(0, 65536), before);
}

#[test]
fn overflow_wraps_in_memory() {
    let mut c = Canister::from_parts(vec![2_147_483_647], vec![2], 1, 1).unwrap();
    assert_eq!(matmul::<1>(&mut c), Ok(()));
    assert_eq!(c.out()[0], 2_147_483_647i32.wrapping_mul(2));
    assert_eq!(c.out()[0], -2);
}

#[test]
fn overflow_wraps_in_store() {
    let a = vec![2_147_483_647, 0, 0, 0];
    let b = vec![2, 0, 0, 0];
    let mut c1 = Canister::from_parts(a.clone(), b.clone(), 1, 1).unwrap();
    let mut c2 = Canister::from_parts(a, b, 1, 1).unwrap();
    assert_eq!(multiply_stable(&mut c1), Ok(()));
    assert_eq!(multiply_stable_old(&mut c2), Ok(()));
    assert_eq!(stored_out(&c1), vec![-2]);
    assert_eq!(stored_out(&c2), vec![-2]);
}

#[test]
fn overflow_across_lanes_wraps() {
    let a = vec![i32::MAX, i32::MAX, i32::MIN, 7, 1, -1, 3, 9];
    let b = vec![i32::MAX, 3, i32::MIN, -5];
    let mut c1 = Canister::from_parts(a.clone(), b.clone(), 2, 1).unwrap();
    let mut c2 = Canister::from_parts(a.clone(), b.clone(), 2, 1).unwrap();
    let mut c3 = Canister::from_parts(a.clone(), b.clone(), 2, 1).unwrap();
    multiply_stable(&mut c1).unwrap();
    multiply_stable_old(&mut c2).unwrap();
    matmul::<2>(&mut c3).unwrap();
    let want = vec![expected_row(&a, &b, 0), expected_row(&a, &b, 1)];
    assert_eq!(stored_out(&c1), want);
    assert_eq!(stored_out(&c2), want);
    assert_eq!(c3.out().clone(), want);
}

#[test]
fn store_engines_write_identical_bytes() {
    let mut c1 = init(8, 3, 4).unwrap();
    let mut c2 = init(8, 3, 4).unwrap();
    assert_eq!(multiply_stable(&mut c1), Ok(()));
    assert_eq!(multiply_stable_old(&mut c2), Ok(()));
    assert_eq!(c1.store().read(0, 65536), c2.store().read(0, 65536));
    let a: Vec<i32> = (0..24).collect();
    let b: Vec<i32> = (0..8).collect();
    let want: Vec<i32> = (0..3).map(|i| expected_row(&a, &b, i)).collect();
    assert_eq!(stored_out(&c1), want);
    assert_eq!(want, vec![140, 364, 588]);
}

#[test]
fn heap_and_store_engines_agree() {
    let mut c1 = init(8, 3, 4).unwrap();
    let mut c2 = init(8, 3, 4).unwrap();
    assert_eq!(matmul::<4>(&mut c1), Ok(()));
    assert_eq!(multiply_stable(&mut c2), Ok(()));
    assert_eq!(c1.out().clone(), stored_out(&c2));
    assert_eq!(c2.out().clone(), vec![0, 0, 0]);
}

#[test]
fn multiply_heap_uses_groups_of_sixty_four() {
    let mut c = init(128, 3, 16).unwrap();
    assert_eq!(multiply_heap(&mut c), Ok(()));
    let a: Vec<i32> = (0..128 * 3).collect();
    let b: Vec<i32> = (0..128).collect();
    let want: Vec<i32> = (0..3).map(|i| expected_row(&a, &b, i)).collect();
    assert_eq!(c.out().clone(), want);
    let mut s = init(128, 3, 16).unwrap();
    assert_eq!(multiply_stable_old(&mut s), Ok(()));
    assert_eq!(stored_out(&s), want);
}

#[test]
fn rerunning_an_engine_gives_the_same_output() {
    let mut c = init(8, 5, 4).unwrap();
    multiply_stable(&mut c).unwrap();
    let first = c.store().read(0, 65536);
    multiply_stable(&mut c).unwrap();
    assert_eq!(c.store().read(0, 65536), first);
    multiply_stable_old(&mut c).unwrap();
    assert_eq!(c.store().read(0, 65536), first);
    matmul::<8>(&mut c).unwrap();
    let out = c.out().clone();
    matmul::<8>(&mut c).unwrap();
    assert_eq!(c.out().clone(), out);
    assert_eq!(c.a().clone(), (0..40).collect::<Vec<i32>>());
}

#[test]
fn init_mirrors_matrix_and_vector_little_endian() {
    let c = init(4, 2, 1).unwrap();
    assert_eq!(c.store().size(), 1);
    let bytes = c.store().read(0, 56);
    assert_eq!(&bytes[0..8], &[0, 0, 0, 0, 1, 0, 0, 0]);
    assert_eq!(&bytes[28..32], &[7, 0, 0, 0]);
    assert_eq!(&bytes[32..48], &[0, 0, 0, 0, 1, 0, 0, 0, 2, 0, 0, 0, 3, 0, 0, 0]);
    assert_eq!(&bytes[48..56], &[0; 8]);
}

#[test]
fn init_beyond_the_ceiling_fails() {
    assert!(matches!(init(64, 64, 0), Err(CapacityError)));
    assert!(matches!(init(128, 128, 1), Err(CapacityError)));
    assert!(init(128, 120, 1).is_ok());
    assert!(matches!(init(usize::MAX, 2, 4), Err(CapacityError)));
}

#[test]
fn exact_page_multiple_takes_no_extra_page() {
    // (4 * 3276 + 4 + 3276) * 4 == 65536
    let c = init(4, 3276, 1).unwrap();
    assert_eq!(c.store().size(), 1);
    assert!(matches!(init(4, 3276, 0), Err(CapacityError)));
    assert!(matches!(init(4, 3277, 1), Err(CapacityError)));
}

#[test]
fn empty_shapes() {
    let mut c = init(0, 0, 1).unwrap();
    assert_eq!(c.store().size(), 1);
    assert_eq!(multiply_stable(&mut c), Ok(()));
    assert_eq!(multiply_stable_old(&mut c), Ok(()));
    assert_eq!(multiply_heap(&mut c), Ok(()));
    let mut z = init(0, 3, 1).unwrap();
    assert_eq!(matmul::<4>(&mut z), Ok(()));
    assert_eq!(z.out().clone(), vec![0, 0, 0]);
}

#[test]
fn empty_call_does_nothing() {
    update_empty();
}
