use image_base_colors::kmeans::wide::Wide;

fn same(a: &Wide, b: &Wide) -> bool {
    !a.lt(b) && !b.lt(a)
}

#[test]
fn wide_orders_small_numbers() {
    assert!(Wide::from_u128(3).lt(&Wide::from_u128(4)));
    assert!(!Wide::from_u128(4).lt(&Wide::from_u128(4)));
    assert!(!Wide::from_u128(5).lt(&Wide::from_u128(4)));
    assert!(Wide::zero().lt(&Wide::from_u128(1)));
    assert!(same(&Wide::zero(), &Wide::from_u128(0)));
    assert!(Wide::from_u128(u64::MAX as u128).lt(&Wide::from_u128(u64::MAX as u128 + 1)));
    assert!(Wide::from_u128(u128::MAX - 1).lt(&Wide::from_u128(u128::MAX)));
    // the high limb decides
    assert!(Wide::from_u128(u64::MAX as u128).lt(&Wide::from_u128(1 << 64)));
    assert!(!Wide::from_u128(1 << 64).lt(&Wide::from_u128(u64::MAX as u128)));
}

#[test]
fn wide_sum_and_product_agree_with_u128() {
    let values: [u128; 8] = [0, 1, 2, 9, u32::MAX as u128, u64::MAX as u128, 1 << 64, (1 << 100) + 12345];
    for a in values {
        for b in values {
            let sum = Wide::from_u128(a).plus(&Wide::from_u128(b));
            assert!(same(&sum, &Wide::from_u128(a + b)));
            if let Some(p) = a.checked_mul(b) {
                let product = Wide::from_u128(a).times(&Wide::from_u128(b));
                assert!(same(&product, &Wide::from_u128(p)));
            }
        }
    }
}

#[test]
fn wide_goes_beyond_u128() {
    let max = Wide::from_u128(u128::MAX);
    let one = Wide::from_u128(1);
    let next = max.plus(&one);
    assert!(max.lt(&next));
    // (2^128 - 1) + 1 = 2^64 * 2^64
    let two_64 = Wide::from_u128(1 << 64);
    assert!(same(&next, &two_64.times(&two_64)));
    // (2^128 - 1)^2 = 2^256 - 2^129 + 1
    let square = max.times(&max);
    let two_128 = two_64.times(&two_64);
    let two_256 = two_128.times(&two_128);
    let two_129 = two_128.plus(&two_128);
    assert!(same(&square.plus(&two_129), &two_256.plus(&one)));
    assert!(square.lt(&two_256));
    // a product does not depend on the order
    let a = Wide::from_u128(0x1234_5678_9abc_def0_1122_3344_5566_7788);
    let b = Wide::from_u128(0xffff_0000_ffff_0000_8000_0000_0000_0001);
    assert!(same(&a.times(&b).times(&max), &max.times(&a).times(&b)));
    assert!(a.times(&b).lt(&a.times(&b).plus(&one)));
    assert!(same(&a.times(&Wide::zero()), &Wide::zero()));
}
