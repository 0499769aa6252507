use tac::mask::mask16;
use tac::mask::mask32;

#[test]
fn mask32_sets_one_bit_per_delimiter_lowest_address_least_significant() {
    let mut bytes = [b'x'; 32];
    bytes[0] = b'\n';
    bytes[5] = b'\n';
    bytes[31] = b'\n';
    let m = mask32(&bytes, 0);
    assert_eq!(m, (1 << 0) | (1 << 5) | (1 << 31));
}

#[test]
fn mask32_reads_only_its_window() {
    let mut bytes = [b'\n'; 64];
    for i in 16..48 {
        bytes[i] = b'y';
    }
    bytes[20] = b'\n';
    // The window [16, 48) holds exactly one delimiter, at offset 4.
    assert_eq!(mask32(&bytes, 16), 1 << 4);
}

#[test]
fn mask32_empty_and_full() {
    let bytes = [b'q'; 32];
    assert_eq!(mask32(&bytes, 0), 0);
    let bytes = [b'\n'; 32];
    assert_eq!(mask32(&bytes, 0), u32::MAX);
}

#[test]
fn mask16_sets_one_bit_per_delimiter_lowest_address_least_significant() {
    let mut bytes = [b'x'; 16];
    bytes[1] = b'\n';
    bytes[15] = b'\n';
    let m = mask16(&bytes, 0);
    assert_eq!(m, (1 << 1) | (1 << 15));
}

#[test]
fn mask16_empty_and_full() {
    let bytes = [b'q'; 16];
    assert_eq!(mask16(&bytes, 0), 0);
    let bytes = [b'\n'; 16];
    assert_eq!(mask16(&bytes, 0), u16::MAX);
}
