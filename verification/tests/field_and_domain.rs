use pilcom_rust::columns::{
    apply_op, combine_columns, combine_constant, copy_column, copy_table, empty_table, fill_column,
    rotate_column, table_has_rows,
};
use pilcom_rust::connection_map::{build_connection_map, split_key, ConnectionMap};
use pilcom_rust::domain::{get_ks, get_roots, log2_exact, KAPPA, MAX_COSETS, ROOT_32};
use pilcom_rust::field::{Fgl, MODULUS};
use pilcom_rust::pil::Op;

fn column(values: &[u64]) -> Vec<Fgl> {
    values.iter().map(|v| Fgl::from_u64(*v)).collect()
}

fn ints(column: &[Fgl]) -> Vec<u64> {
    column.iter().map(|v| v.as_int()).collect()
}

fn mul_mod(a: u64, b: u64) -> u64 {
    ((a as u128 * b as u128) % MODULUS as u128) as u64
}

#[test]
fn modulus_is_the_goldilocks_prime() {
    assert_eq!(MODULUS, 18446744069414584321);
    assert_eq!(MODULUS as u128, (1u128 << 64) - (1u128 << 32) + 1);
}

#[test]
fn from_u64_reduces() {
    assert_eq!(Fgl::from_u64(0).as_int(), 0);
    assert_eq!(Fgl::from_u64(5).as_int(), 5);
    assert_eq!(Fgl::from_u64(MODULUS - 1).as_int(), MODULUS - 1);
    assert_eq!(Fgl::from_u64(MODULUS).as_int(), 0);
    assert_eq!(Fgl::from_u64(MODULUS + 7).as_int(), 7);
    assert_eq!(Fgl::from_u64(u64::MAX).as_int(), 4294967294);
}

#[test]
fn from_i64_takes_negative_numbers_as_additive_inverses() {
    assert_eq!(Fgl::from_i64(0).as_int(), 0);
    assert_eq!(Fgl::from_i64(42).as_int(), 42);
    assert_eq!(Fgl::from_i64(i64::MAX).as_int(), i64::MAX as u64);
    assert_eq!(Fgl::from_i64(-1).as_int(), MODULUS - 1);
    assert_eq!(Fgl::from_i64(-42).as_int(), MODULUS - 42);
    assert_eq!(Fgl::from_i64(i64::MIN).as_int(), MODULUS - (1u64 << 63));
    assert_eq!(Fgl::from_i64(-5).add(Fgl::from_u64(5)), Fgl::zero());
}

#[test]
fn conversion_and_default() {
    assert_eq!(Fgl::from(5u64), Fgl::from_u64(5));
    assert_eq!(Fgl::from(MODULUS + 1).as_int(), 1);
    assert_eq!(Fgl::default(), Fgl::zero());
    let converted: Fgl = 7u64.into();
    assert_eq!(converted.as_int(), 7);
}

#[test]
fn zero_and_one() {
    assert_eq!(Fgl::zero().as_int(), 0);
    assert_eq!(Fgl::one().as_int(), 1);
    assert!(Fgl::zero().same(&Fgl::from_u64(MODULUS)));
    assert!(!Fgl::zero().same(&Fgl::one()));
}

#[test]
fn addition_wraps_at_the_modulus() {
    let a = Fgl::from_u64(MODULUS - 1);
    assert_eq!(a.add(Fgl::one()).as_int(), 0);
    assert_eq!(a.add(a).as_int(), MODULUS - 2);
    assert_eq!(Fgl::from_u64(5).add(Fgl::from_u64(3)).as_int(), 8);
}

#[test]
fn subtraction_wraps_below_zero() {
    assert_eq!(Fgl::from_u64(5).sub(Fgl::from_u64(3)).as_int(), 2);
    assert_eq!(Fgl::from_u64(3).sub(Fgl::from_u64(5)).as_int(), MODULUS - 2);
    assert_eq!(Fgl::zero().sub(Fgl::one()).as_int(), MODULUS - 1);
    assert_eq!(Fgl::from_u64(9).sub(Fgl::from_u64(9)).as_int(), 0);
}

#[test]
fn multiplication_reduces_the_wide_product() {
    assert_eq!(Fgl::from_u64(6).mul(Fgl::from_u64(7)).as_int(), 42);
    let a = Fgl::from_u64(MODULUS - 1);
    assert_eq!(a.mul(a).as_int(), 1);
    let b = Fgl::from_u64(1 << 32);
    assert_eq!(b.mul(b).as_int(), 4294967295);
    assert_eq!(Fgl::from_u64(KAPPA).mul(Fgl::from_u64(9127779584614301956)).as_int(), 1);
}

#[test]
fn negation() {
    assert_eq!(Fgl::zero().neg().as_int(), 0);
    assert_eq!(Fgl::one().neg().as_int(), MODULUS - 1);
    assert_eq!(Fgl::from_u64(MODULUS - 1).neg().as_int(), 1);
}

#[test]
fn roots_schedule() {
    let roots = get_roots();
    assert_eq!(roots.len(), 33);
    assert_eq!(roots[32].as_int(), ROOT_32);
    assert_eq!(ROOT_32, 7277203076849721926);
    assert_eq!(roots[0].as_int(), 1);
    assert_eq!(roots[1].as_int(), MODULUS - 1);
    assert_eq!(roots[2].as_int(), 281474976710656);
    for k in 0..32 {
        assert_eq!(roots[k], roots[k + 1].mul(roots[k + 1]));
    }
}

#[test]
fn each_root_has_its_exact_order() {
    let roots = get_roots();
    for k in 1..=8usize {
        let mut x = Fgl::one();
        for step in 1..=(1u64 << k) {
            x = x.mul(roots[k]);
            if step < (1u64 << k) {
                assert_ne!(x, Fgl::one());
            }
        }
        assert_eq!(x, Fgl::one());
    }
}

#[test]
fn coset_multipliers_start_at_one() {
    assert_eq!(KAPPA, 12275445934081160404);
    assert_eq!(ints(&get_ks(0)), Vec::<u64>::new());
    assert_eq!(ints(&get_ks(1)), vec![1]);
    let ks = get_ks(4);
    assert_eq!(ks[0].as_int(), 1);
    assert_eq!(ks[1].as_int(), KAPPA);
    assert_eq!(ks[2].as_int(), mul_mod(KAPPA, KAPPA));
    assert_eq!(ks[3].as_int(), mul_mod(mul_mod(KAPPA, KAPPA), KAPPA));
}

#[test]
fn log2_of_domain_sizes() {
    assert_eq!(log2_exact(0), None);
    assert_eq!(log2_exact(1), Some(0));
    assert_eq!(log2_exact(2), Some(1));
    assert_eq!(log2_exact(3), None);
    assert_eq!(log2_exact(4), Some(2));
    assert_eq!(log2_exact(1024), Some(10));
    assert_eq!(log2_exact(1025), None);
    assert_eq!(log2_exact(1usize << 32), Some(32));
    assert_eq!(log2_exact(1usize << 33), None);
}

#[test]
fn key_is_split_in_twelve_twelve_and_forty_bits() {
    assert_eq!(split_key(0), (0, 0, 0));
    assert_eq!(split_key(u64::MAX), (0xFFF, 0xFFF, 0xFF_FFFF_FFFF));
    assert_eq!(split_key(0xABC_DEF_01_2345_6789), (0xABC, 0xDEF, 0x01_2345_6789));
    assert_eq!(split_key(1 << 40), (0, 1, 0));
    assert_eq!(split_key(1 << 52), (1, 0, 0));
}

#[test]
fn connection_map_keeps_the_last_pair_of_a_key() {
    let mut m = ConnectionMap::new();
    assert_eq!(m.len(), 0);
    assert_eq!(m.get(7), None);
    m.insert(7, (1, 2));
    m.insert(7 + (1 << 40), (3, 4));
    m.insert(7 + (1 << 52), (5, 6));
    assert_eq!(m.len(), 3);
    assert_eq!(m.get(7), Some((1, 2)));
    assert_eq!(m.get(7 + (1 << 40)), Some((3, 4)));
    assert_eq!(m.get(7 + (1 << 52)), Some((5, 6)));
    m.insert(7, (9, 9));
    assert_eq!(m.len(), 3);
    assert_eq!(m.get(7), Some((9, 9)));
    let copy = m.clone();
    assert_eq!(copy.len(), 3);
    assert_eq!(copy.get(7), Some((9, 9)));
    assert_eq!(copy.get(8), None);
}

#[test]
fn coset_map_holds_every_element_once() {
    let log_n = 3u32;
    let k = 5usize;
    let m = build_connection_map(log_n, k);
    assert_eq!(m.len(), 8 * 5);
    let roots = get_roots();
    let ks = get_ks(k);
    let mut w = Fgl::one();
    for i in 0..8u64 {
        for j in 0..k {
            assert_eq!(m.get(ks[j].mul(w).as_int()), Some((j as u64, i)));
        }
        w = w.mul(roots[log_n as usize]);
    }
    assert_eq!(m.get(0), None);
    assert_eq!(m.get(2), None);
}

#[test]
fn coset_map_of_the_largest_number_of_cosets() {
    let m = build_connection_map(1, MAX_COSETS);
    assert_eq!(MAX_COSETS, 33);
    assert_eq!(m.len(), 66);
    let ks = get_ks(MAX_COSETS);
    assert_eq!(m.get(ks[32].as_int()), Some((32, 0)));
    assert_eq!(m.get(ks[32].neg().as_int()), Some((32, 1)));
}

#[test]
fn coset_map_without_cosets_is_empty() {
    let m = build_connection_map(4, 0);
    assert_eq!(m.len(), 0);
    assert_eq!(m.get(1), None);
}

#[test]
fn rotation_reads_one_row_ahead() {
    assert_eq!(ints(&rotate_column(&column(&[1, 2, 3, 4]))), vec![2, 3, 4, 1]);
    assert_eq!(ints(&rotate_column(&column(&[9]))), vec![9]);
    assert_eq!(ints(&rotate_column(&column(&[]))), Vec::<u64>::new());
}

#[test]
fn rotating_as_often_as_there_are_rows_gives_the_column_back() {
    let start = column(&[10, 20, 30, 40, 50, 60, 70, 80]);
    let mut c = copy_column(&start);
    for turn in 1..=8 {
        c = rotate_column(&c);
        if turn < 8 {
            assert_ne!(c, start);
        }
    }
    assert_eq!(c, start);
}

#[test]
fn columns_are_combined_row_by_row() {
    let a = column(&[1, 2, MODULUS - 1]);
    let b = column(&[5, 2, 3]);
    assert_eq!(ints(&combine_columns(Op::Add, &a, &b)), vec![6, 4, 2]);
    assert_eq!(ints(&combine_columns(Op::Sub, &a, &b)), vec![MODULUS - 4, 0, MODULUS - 4]);
    assert_eq!(ints(&combine_columns(Op::Mul, &a, &b)), vec![5, 4, MODULUS - 3]);
    let c = Fgl::from_u64(10);
    assert_eq!(ints(&combine_constant(Op::Addc, &a, c)), vec![11, 12, 9]);
    assert_eq!(ints(&combine_constant(Op::Mulc, &a, c)), vec![10, 20, MODULUS - 10]);
    assert_eq!(ints(&combine_constant(Op::Neg, &a, c)), vec![MODULUS - 1, MODULUS - 2, 1]);
    assert_eq!(ints(&fill_column(Fgl::from_u64(7), 3)), vec![7, 7, 7]);
    assert_eq!(ints(&combine_columns(Op::Cm, &a, &b)), vec![1, 2, MODULUS - 1]);
    assert_eq!(apply_op(Op::Sub, Fgl::from_u64(2), Fgl::from_u64(5)).as_int(), MODULUS - 3);
    assert_eq!(apply_op(Op::Number, Fgl::from_u64(2), Fgl::from_u64(5)).as_int(), 2);
}

#[test]
fn tables_of_columns() {
    let table = vec![column(&[1, 2]), column(&[3, 4]), column(&[5, 6])];
    assert_eq!(copy_table(&table), table);
    assert!(table_has_rows(&table, 2));
    assert!(!table_has_rows(&table, 3));
    assert!(table_has_rows(&Vec::new(), 7));
    let ragged = vec![column(&[1, 2]), column(&[3])];
    assert!(!table_has_rows(&ragged, 2));
    assert!(!table_has_rows(&ragged, 1));
    assert_eq!(empty_table(2), vec![Vec::<Fgl>::new(), Vec::new()]);
    assert_eq!(empty_table(0), Vec::<Vec<Fgl>>::new());
}
