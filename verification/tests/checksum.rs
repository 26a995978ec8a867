use corrosium::gp_utils::{checksum, checksum_update, sum_mod};

#[test]
fn sum_mod_wraps_once() {
    assert_eq!(sum_mod(5, 3, 10), 8);
    assert_eq!(sum_mod(8, 3, 10), 1);
    assert_eq!(sum_mod(7, 3, 10), 0);
    assert_eq!(sum_mod(5, 0, 10), 5);
    assert_eq!(sum_mod(2, 10, 10), 2);
    assert_eq!(sum_mod(u32::MAX - 1, 1, u32::MAX), 0);
}

#[test]
fn sum_mod_of_an_unreduced_first_operand() {
    assert_eq!(sum_mod(25, 3, 10), 18);
    assert_eq!(sum_mod(25, 0, 10), 25);
}

#[test]
fn checksum_adds_bytes_modulo_u32_max() {
    assert_eq!(checksum(&[]), 0);
    assert_eq!(checksum(&[1, 2, 3]), 6);
    assert_eq!(checksum(&[255; 4]), 1020);
    assert_eq!(checksum_update(u32::MAX - 2, &[1, 2, 3]), 4);
}

#[test]
fn checksum_in_chunks_equals_checksum_at_once() {
    let data: Vec<u8> = (0..2000u32).map(|i| (i * 7 % 256) as u8).collect();
    let whole = checksum(&data);
    let mut sum = 0;
    for chunk in data.chunks(512) {
        sum = checksum_update(sum, chunk);
    }
    assert_eq!(sum, whole);
    let total: u64 = data.iter().map(|b| *b as u64).sum();
    assert_eq!(whole as u64, total % (u32::MAX as u64));
}
