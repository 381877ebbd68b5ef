use core::iter::repeat_with;

use babybear_ntt::dft::bit_reverse::{bit_reverse_permute, reversed_index};
use babybear_ntt::dft::butterfly::{butterfly, merge_by_root};
use babybear_ntt::dft::forward::merge_by_row;
use babybear_ntt::dft::lengths::{is_supported, log2_of, MAX_LENGTH};
use babybear_ntt::dft::table::powers_of;
use babybear_ntt::dft::{
    backward_fft, convolve_scaled, forward_fft, inverse_root, pointwise_mul, roots_of_unity_table,
};
use babybear_ntt::field::{add_mod, mul_mod, sub_mod, P};
use p3_baby_bear::BabyBear;
use p3_field::{AbstractField, Field, PrimeField32};
use rand::{thread_rng, Rng};

fn field(x: i64) -> BabyBear {
    BabyBear::from_canonical_u32(x as u32)
}

fn naive_convolve(us: &[BabyBear], vs: &[BabyBear]) -> Vec<BabyBear> {
    let n = us.len();
    assert_eq!(n, vs.len());

    let mut conv = Vec::with_capacity(n);
    for i in 0..n {
        let mut t = BabyBear::zero();
        for j in 0..n {
            t = t + us[j] * vs[(n + i - j) % n];
        }
        conv.push(t);
    }
    conv
}

fn randcomplex() -> i64 {
    let mut rng = thread_rng();
    (rng.gen::<u32>() % (P as u32)) as i64
}

fn randvec(n: usize) -> Vec<i64> {
    repeat_with(randcomplex).take(n).collect::<Vec<_>>()
}

fn pow_mod(base: i64, mut e: u64) -> i64 {
    let mut acc: i128 = 1;
    let mut b: i128 = base as i128;
    while e > 0 {
        if e & 1 == 1 {
            acc = acc * b % (P as i128);
        }
        b = b * b % (P as i128);
        e >>= 1;
    }
    acc as i64
}

fn naive_dft(us: &[i64], root: i64) -> Vec<i64> {
    let n = us.len();
    (0..n)
        .map(|j| {
            let mut acc: i128 = 0;
            for i in 0..n {
                acc = (acc + us[i] as i128 * pow_mod(root, (i * j) as u64) as i128) % (P as i128);
            }
            acc as i64
        })
        .collect()
}

#[test]
fn forward_backward_is_identity() {
    const NITERS: usize = 100;
    let mut len = 4;
    loop {
        let root_table = roots_of_unity_table(len);
        let root = root_table[0][0];
        let root_inv = field(root).inverse().as_canonical_u32() as i64;

        for _ in 0..NITERS {
            let us = randvec(len);
            let mut vs = us.clone();
            forward_fft(&mut vs, &root_table);

            let mut ws = vs.clone();
            backward_fft(&mut ws, root_inv);

            assert!(us.iter().zip(ws).all(|(&u, w)| w == (u * len as i64) % P));
        }
        len *= 2;
        if len > 8192 {
            break;
        }
    }
}

#[test]
fn convolution() {
    const NITERS: usize = 4;
    let mut len = 4;
    loop {
        let root_table = roots_of_unity_table(len);
        let root = root_table[0][0];
        let root_inv = field(root).inverse().as_canonical_u32() as i64;

        for _ in 0..NITERS {
            let us = randvec(len);
            let vs = randvec(len);

            let mut fft_us = us.clone();
            forward_fft(&mut fft_us, &root_table);

            let mut fft_vs = vs.clone();
            forward_fft(&mut fft_vs, &root_table);

            let mut pt_prods = fft_us
                .iter()
                .zip(fft_vs)
                .map(|(&u, v)| {
                    let prod = field(u) * field(v);
                    prod.as_canonical_u32() as i64
                })
                .collect::<Vec<_>>();

            backward_fft(&mut pt_prods, root_inv);

            let bus = us.iter().map(|&u| field(u)).collect::<Vec<_>>();
            let bvs = vs.iter().map(|&v| field(v)).collect::<Vec<_>>();
            let bconv = naive_convolve(&bus, &bvs);
            let conv = bconv
                .iter()
                .map(|b| b.as_canonical_u32() as i64)
                .collect::<Vec<_>>();

            assert!(conv
                .iter()
                .zip(pt_prods)
                .all(|(&c, p)| p == (c * len as i64) % P));
        }
        len *= 2;
        if len > 8192 {
            break;
        }
    }
}

#[test]
fn round_trip_of_one_to_four_scales_by_four() {
    let table = roots_of_unity_table(4);
    let mut buf = vec![1, 2, 3, 4];
    forward_fft(&mut buf, &table);
    backward_fft(&mut buf, inverse_root(4));
    assert_eq!(buf, vec![4, 8, 12, 16]);
}

#[test]
fn forward_of_length_four_is_the_exact_transform() {
    let table = roots_of_unity_table(4);
    // 1728404513 is the canonical fourth root of unity; its square is P - 1.
    assert_eq!(table, vec![vec![1728404513, 2013265920], vec![2013265920]]);
    let mut buf = vec![1, 2, 3, 4];
    forward_fft(&mut buf, &table);
    // 10, -2 - 2w, -2, -2 + 2w with w = 1728404513
    assert_eq!(buf, vec![10, 569722814, 2013265919, 1443543103]);
}

#[test]
fn forward_of_length_two_adds_and_subtracts() {
    let table = roots_of_unity_table(2);
    assert_eq!(table, vec![vec![2013265920]]);
    let mut buf = vec![5, 7];
    forward_fft(&mut buf, &table);
    assert_eq!(buf, vec![12, 2013265919]);
}

#[test]
fn forward_agrees_with_the_defining_sum() {
    for &len in &[2usize, 4, 8, 16, 64] {
        let table = roots_of_unity_table(len);
        let us = randvec(len);
        let mut vs = us.clone();
        forward_fft(&mut vs, &table);
        assert_eq!(vs, naive_dft(&us, table[0][0]));
    }
}

#[test]
fn backward_agrees_with_the_defining_sum() {
    for &len in &[1usize, 2, 4, 8, 32] {
        let root_inv = inverse_root(len);
        let us = randvec(len);
        let mut vs = us.clone();
        backward_fft(&mut vs, root_inv);
        assert_eq!(vs, naive_dft(&us, root_inv));
    }
}

#[test]
fn backward_with_a_root_of_another_order_is_no_transform() {
    // 3 is no eighth root of unity, so the network's answer is not the sum.
    let us: Vec<i64> = vec![1, 2, 3, 4, 5, 6, 7, 8];
    let mut vs = us.clone();
    backward_fft(&mut vs, 3);
    assert_ne!(vs, naive_dft(&us, 3));
    assert_eq!(
        vs,
        vec![36, 2013265761, 2013265881, 896, 2013265917, 80, 32, 2013265089]
    );
}

#[test]
fn single_entry_is_left_unchanged() {
    let mut buf = vec![123456789];
    forward_fft(&mut buf, &[]);
    assert_eq!(buf, vec![123456789]);
    forward_fft(&mut buf, &roots_of_unity_table(8));
    assert_eq!(buf, vec![123456789]);
    backward_fft(&mut buf, 5);
    assert_eq!(buf, vec![123456789]);
    assert_eq!(inverse_root(1), 1);
}

#[test]
fn table_is_the_same_on_every_call() {
    for &len in &[2usize, 4, 64, 1024] {
        assert_eq!(roots_of_unity_table(len), roots_of_unity_table(len));
    }
}

#[test]
fn table_has_one_stage_per_halving() {
    let len = 64;
    let table = roots_of_unity_table(len);
    assert_eq!(table.len(), 6);
    let root = table[0][0];
    assert_eq!(pow_mod(root, 32), P - 1);
    for (k, row) in table.iter().enumerate() {
        assert_eq!(row.len(), len >> (k + 1));
        for (j, &entry) in row.iter().enumerate() {
            assert_eq!(entry, pow_mod(root, ((j + 1) << k) as u64));
        }
    }
}

#[test]
fn table_root_is_the_backend_generator() {
    assert_eq!(roots_of_unity_table(2)[0][0], 0x78000000);
    assert_eq!(roots_of_unity_table(8)[0][0], 0x5ee99486);
    assert_eq!(roots_of_unity_table(1 << 16)[0][0], 0x54c131f4);
}

#[test]
fn inverse_root_inverts_the_table_root() {
    for bits in 1..=12 {
        let len = 1usize << bits;
        let root = roots_of_unity_table(len)[0][0];
        let root_inv = inverse_root(len);
        assert_eq!(mul_mod(root, root_inv), 1);
        assert_eq!(pow_mod(root_inv, (len / 2) as u64), P - 1);
    }
    assert_eq!(inverse_root(2), P - 1);
    assert_eq!(inverse_root(4), 284861408);
    assert_eq!(inverse_root(MAX_LENGTH), pow_mod(0x1a427a41, (P - 2) as u64));
}

#[test]
fn supported_lengths_are_the_powers_of_two_up_to_the_limit() {
    assert!(!is_supported(0));
    assert!(is_supported(1));
    assert!(is_supported(2));
    assert!(!is_supported(3));
    assert!(is_supported(4));
    assert!(!is_supported(6));
    assert!(!is_supported(12));
    assert!(is_supported(8192));
    assert!(!is_supported(8191));
    assert!(is_supported(1 << 27));
    assert!(!is_supported((1 << 27) + 1));
    assert!(!is_supported(1 << 28));
    assert_eq!(MAX_LENGTH, 1 << 27);
}

#[test]
fn log2_counts_the_halvings() {
    assert_eq!(log2_of(1), 0);
    assert_eq!(log2_of(2), 1);
    assert_eq!(log2_of(8192), 13);
    assert_eq!(log2_of(1 << 27), 27);
}

#[test]
fn powers_start_at_the_first_power() {
    assert_eq!(powers_of(3, 5), vec![3, 9, 27, 81, 243]);
    assert_eq!(powers_of(P - 1, 3), vec![P - 1, 1, P - 1]);
    assert_eq!(powers_of(7, 0), Vec::<i64>::new());
}

#[test]
fn reduced_arithmetic_wraps_at_the_prime() {
    assert_eq!(P, 2013265921);
    assert_eq!(add_mod(P - 1, 1), 0);
    assert_eq!(add_mod(P - 1, P - 1), P - 2);
    assert_eq!(sub_mod(0, 1), P - 1);
    assert_eq!(sub_mod(5, 3), 2);
    assert_eq!(mul_mod(P - 1, P - 1), 1);
    assert_eq!(mul_mod(123456789, 987654321), 6500116);
}

#[test]
fn convolve_scaled_is_the_convolution_times_the_length() {
    // (1 + 2x + 3x^2 + 4x^3)(5 + 6x + 7x^2 + 8x^3) mod (x^4 - 1) = 66 + 68x + 66x^2 + 60x^3
    let c = convolve_scaled(vec![1, 2, 3, 4], vec![5, 6, 7, 8]);
    assert_eq!(c, vec![4 * 66, 4 * 68, 4 * 66, 4 * 60]);
    assert_eq!(convolve_scaled(vec![3], vec![5]), vec![15]);
    assert_eq!(convolve_scaled(vec![P - 1], vec![P - 1]), vec![1]);
    assert_eq!(convolve_scaled(vec![1, 0], vec![7, 9]), vec![14, 18]);
    assert_eq!(convolve_scaled(vec![0, 1], vec![7, 9]), vec![18, 14]);
}

#[test]
fn convolve_scaled_agrees_with_the_defining_sum() {
    for &len in &[2usize, 8, 32, 256] {
        let us = randvec(len);
        let vs = randvec(len);
        let bus = us.iter().map(|&u| field(u)).collect::<Vec<_>>();
        let bvs = vs.iter().map(|&v| field(v)).collect::<Vec<_>>();
        let expected = naive_convolve(&bus, &bvs)
            .iter()
            .map(|b| (b.as_canonical_u32() as i64 * len as i64) % P)
            .collect::<Vec<_>>();
        assert_eq!(convolve_scaled(us, vs), expected);
    }
}

#[test]
fn pointwise_mul_multiplies_entry_by_entry() {
    assert_eq!(
        pointwise_mul(&[2, P - 1, 0, 123456789], &[3, P - 1, 5, 987654321]),
        vec![6, 1, 0, 6500116]
    );
    assert_eq!(pointwise_mul(&[], &[]), Vec::<i64>::new());
}

#[test]
fn butterfly_adds_and_subtracts_the_twiddled_entry() {
    assert_eq!(butterfly(10, 3, 1), (13, 7));
    assert_eq!(butterfly(1, 3, 2), (7, P - 5));
    assert_eq!(butterfly(0, P - 1, P - 1), (1, P - 1));
    assert_eq!(butterfly(P - 1, P - 1, 1), (P - 2, 0));
}

#[test]
fn merge_by_root_steps_through_the_powers_of_the_root() {
    let mut top = vec![1, 2, 3];
    let mut tail = vec![10, 20, 30];
    merge_by_root(&mut top, &mut tail, 2);
    assert_eq!(top, vec![11, 42, 123]);
    assert_eq!(tail, vec![P - 9, P - 38, P - 117]);
}

#[test]
fn merge_by_row_reads_the_powers_from_the_row() {
    let mut top = vec![1, 2, 3];
    let mut tail = vec![10, 20, 30];
    merge_by_row(&mut top, &mut tail, &[2, 4, 8]);
    assert_eq!(top, vec![11, 42, 123]);
    assert_eq!(tail, vec![P - 9, P - 38, P - 117]);
}

#[test]
fn reversed_index_reverses_the_binary_digits() {
    assert_eq!(reversed_index(1, 0), 0);
    assert_eq!(reversed_index(2, 0), 0);
    assert_eq!(reversed_index(2, 1), 1);
    assert_eq!(
        (0..8).map(|i| reversed_index(8, i)).collect::<Vec<_>>(),
        vec![0, 4, 2, 6, 1, 5, 3, 7]
    );
    assert_eq!(reversed_index(1 << 27, 1), 1 << 26);
    assert_eq!(reversed_index(1 << 27, 0b110), 0b011 << 24);
    for i in 0..1024 {
        assert_eq!(reversed_index(1024, reversed_index(1024, i)), i);
    }
}

#[test]
fn bit_reverse_permute_moves_each_entry_to_its_reversed_index() {
    let mut buf: Vec<i64> = (0..8).collect();
    bit_reverse_permute(&mut buf);
    assert_eq!(buf, vec![0, 4, 2, 6, 1, 5, 3, 7]);
    bit_reverse_permute(&mut buf);
    assert_eq!(buf, (0..8).collect::<Vec<i64>>());
    let mut one = vec![9];
    bit_reverse_permute(&mut one);
    assert_eq!(one, vec![9]);
}

#[test]
fn forward_is_linear_in_its_input() {
    let len = 64;
    let table = roots_of_unity_table(len);
    let us = randvec(len);
    let vs = randvec(len);
    let mut sum = us.iter().zip(&vs).map(|(&u, &v)| add_mod(u, v)).collect::<Vec<_>>();
    let (mut fu, mut fv) = (us.clone(), vs.clone());
    forward_fft(&mut fu, &table);
    forward_fft(&mut fv, &table);
    forward_fft(&mut sum, &table);
    let expected = fu.iter().zip(&fv).map(|(&u, &v)| add_mod(u, v)).collect::<Vec<_>>();
    assert_eq!(sum, expected);
}

#[test]
fn table_of_a_long_buffer_ends_in_minus_one() {
    let table = roots_of_unity_table(1 << 20);
    assert_eq!(table.len(), 20);
    assert_eq!(table[0].len(), 1 << 19);
    assert_eq!(table[0][0], 0xba067a3);
    assert_eq!(table[19], vec![P - 1]);
    assert_eq!(*table[0].last().unwrap(), P - 1);
}
