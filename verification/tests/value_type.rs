use soft_f32::F32;
use std::cmp::Ordering;

#[test]
fn soft_f32_test_f32_add_with_struct() {
    let v0_1 = F32::from_u32(0x3DCCCCCD);
    let v0_2 = F32::from_u32(0x3E4CCCCD);

    let v0_3 = v0_1 + v0_2;

    assert_eq!(v0_3.value(), 0x3E99999A);
}

#[test]
fn mod_test_f32_add_with_struct() {
    let v0_1 = F32::from_u32(0x3DCCCCCD);
    let v0_2 = F32::from_u32(0x3E4CCCCD);

    let v0_3 = v0_1 + v0_2;

    assert_eq!(v0_3.value(), 0x3E99999A);
}

#[test]
fn test_f32_sub_with_struct() {
    let v0_1 = F32::from_u32(0x3DCCCCCD);
    let v0_2 = F32::from_u32(0x3E4CCCCD);

    let v0_1_result = v0_2 - v0_1;

    assert_eq!(v0_1_result.value(), 0x3DCCCCCD);
}

#[test]
fn test_f32_mul_with_struct() {
    let v0_1 = F32::from_u32(0x3DCCCCCD);
    let v0_2 = F32::from_u32(0x3E4CCCCD);

    let v0_02 = v0_2 * v0_1;

    assert_eq!(v0_02.value(), 0x3CA3D70B);
}

#[test]
fn test_f32_div_with_struct() {
    let v0_1 = F32::from_u32(0x3DCCCCCD);
    let v0_2 = F32::from_u32(0x3E4CCCCD);

    let v0_5 = v0_1 / v0_2;

    assert_eq!(v0_5.value(), 0x3F000000);
}

#[test]
fn test_f32_compare_with_struct() {
    let v0_1 = F32::from_u32(0x3DCCCCCD);
    let v0_2 = F32::from_u32(0x3E4CCCCD);

    assert_eq!(v0_1 == v0_2, false);
    assert_eq!(v0_1 != v0_2, true);

    assert_eq!(v0_1 < v0_2, true);
    assert_eq!(v0_1 <= v0_2, true);
    assert_eq!(v0_1 < v0_1, false);
    assert_eq!(v0_1 <= v0_1, true);

    assert_eq!(v0_1 > v0_2, false);
    assert_eq!(v0_1 >= v0_2, false);
    assert_eq!(v0_1 > v0_1, false);
    assert_eq!(v0_1 >= v0_1, true);
}

#[test]
fn value_type_nan_relations_are_all_false() {
    let nan = F32::from_u32(0x7FC00000);
    let one = F32::from_u32(0x3F800000);
    assert_eq!(nan == one, false);
    assert_eq!(nan != one, false);
    assert_eq!(nan < one, false);
    assert_eq!(nan <= one, false);
    assert_eq!(nan > one, false);
    assert_eq!(nan >= one, false);
    assert_eq!(nan.partial_cmp(&one), None);
    assert_eq!(one.partial_cmp(&nan), None);
}

#[test]
fn value_type_partial_cmp_orders_numbers() {
    let one = F32::from_u32(0x3F800000);
    let two = F32::from_u32(0x40000000);
    let zero = F32::from_u32(0);
    let neg_zero = F32::from_u32(0x80000000);
    assert_eq!(one.partial_cmp(&two), Some(Ordering::Less));
    assert_eq!(two.partial_cmp(&one), Some(Ordering::Greater));
    assert_eq!(zero.partial_cmp(&neg_zero), Some(Ordering::Equal));
}

#[test]
fn value_type_round_trips_raw_bits() {
    for bits in [0u32, 1, 0x80000000, 0x7F800000, 0xFFFFFFFF, 0x3DCCCCCD] {
        assert_eq!(F32::from_u32(bits).value(), bits);
    }
}
