use babybear_ntt::air::PoseidonAir;

type Air = PoseidonAir<u8, 3, 7, 8>;

#[test]
fn new_keeps_what_it_was_given() {
    let constants: Vec<u64> = (0..24).collect();
    let air = Air::new(3, 2, constants, 9);
    assert_eq!(air.half_num_full_rounds(), 3);
    assert_eq!(air.num_partial_rounds(), 2);
    assert_eq!(air.num_rounds(), 8);
    assert_eq!(*air.mds(), 9);
}

#[test]
fn round_constants_are_laid_out_round_by_round() {
    let constants: Vec<u64> = (100..124).collect();
    let air = Air::new(4, 0, constants, 0);
    assert_eq!(air.round_constant(0, 0), 100);
    assert_eq!(air.round_constant(0, 2), 102);
    assert_eq!(air.round_constant(1, 0), 103);
    assert_eq!(air.round_constant(7, 2), 123);
}

#[test]
fn fits_tells_the_shapes_that_new_accepts() {
    assert!(Air::fits(3, 2, 24));
    assert!(Air::fits(0, 8, 24));
    assert!(Air::fits(4, 0, 24));
    assert!(!Air::fits(3, 2, 23));
    assert!(!Air::fits(3, 3, 24));
    assert!(!Air::fits(4, 1, 24));
    assert!(!Air::fits(usize::MAX, 10, 24));
    assert!(!Air::fits(usize::MAX / 2 + 1, 8, 24));
    assert!(!PoseidonAir::<u8, { usize::MAX }, 7, 2>::fits(1, 0, 0));
}
