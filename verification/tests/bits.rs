use sparse_merkle::utils::{bytes_eq, common_prefix, get_msb_at, set_msb_at};

#[test]
fn test_common_prefix() {
    // 00010101010101010101010101000000
    let v1: [u8; 4] = [0x15, 0x55, 0x55, 0x40];
    // 00010101010101010001010101000000
    let v2: [u8; 4] = [0x15, 0x55, 0x15, 0x40];
    assert!(common_prefix(&v1, &v2) == 17);
}

#[test]
fn test_msb_at() {
    // 00010101010101010101010101000000
    let v1: [u8; 4] = [0x15, 0x55, 0x55, 0x40];
    assert!(get_msb_at(&v1, 3) == 1);
    assert!(get_msb_at(&v1, 7) == 1);
    assert!(get_msb_at(&v1, 8) == 0);
}

#[test]
fn test_set_msb_at() {
    // 00010101010101010001010101000000
    let mut v1: Vec<u8> = [0x15, 0x55, 0x15, 0x40].to_vec();

    set_msb_at(&mut v1, 17);
    assert!(v1 == [0x15, 0x55, 0x55, 0x40]);
}

#[test]
fn test_set_msb_at_grows() {
    let mut v: Vec<u8> = Vec::new();
    set_msb_at(&mut v, 0);
    assert_eq!(v, vec![0x80]);
    set_msb_at(&mut v, 17);
    assert_eq!(v, vec![0x80, 0x00, 0x40]);
}

#[test]
fn test_common_prefix_identical() {
    let v: [u8; 2] = [0xab, 0xcd];
    assert_eq!(common_prefix(&v, &v), 16);
}

#[test]
fn test_bytes_eq() {
    assert!(bytes_eq(b"abc", b"abc"));
    assert!(!bytes_eq(b"abc", b"abd"));
    assert!(!bytes_eq(b"abc", b"ab"));
}
