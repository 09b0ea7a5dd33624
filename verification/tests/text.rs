use voxel_octree::text::{digit_str, push_decimal};

#[test]
fn digits_read_as_themselves() {
    for d in 0u8..10 {
        assert_eq!(digit_str(d), d.to_string());
    }
}

#[test]
fn numbers_read_in_decimal() {
    for n in [0u64, 7, 10, 99, 100, 12345, 1 << 31, u64::MAX] {
        let mut text = String::from("n=");
        push_decimal(&mut text, n);
        assert_eq!(text, format!("n={}", n));
    }
}
