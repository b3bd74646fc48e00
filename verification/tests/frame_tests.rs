use rudish::frame::add_get_data;

fn frame_of_len(n: usize) -> Vec<u8> {
    add_get_data(&vec![7u8; n])
}

#[test]
fn empty_value_has_no_length_bytes() {
    assert_eq!(add_get_data(&[]), vec![0b1000_0000]);
}

#[test]
fn value_of_one_byte_has_no_length_bytes() {
    assert_eq!(add_get_data(&[9]), vec![0b1000_0000, 9]);
}

#[test]
fn short_value_has_one_length_byte() {
    assert_eq!(add_get_data(b"abc"), vec![0b1001_0000, 3, b'a', b'b', b'c']);
}

#[test]
fn value_of_255_bytes() {
    let f = frame_of_len(255);
    assert_eq!(&f[..2], &[0b1001_0000, 255]);
    assert_eq!(f.len(), 257);
}

#[test]
fn value_of_256_bytes_wraps_its_length() {
    let f = frame_of_len(256);
    assert_eq!(&f[..2], &[0b1001_0000, 0]);
    assert_eq!(f.len(), 258);
}

#[test]
fn value_of_257_bytes_has_two_length_bytes() {
    let f = frame_of_len(257);
    assert_eq!(&f[..3], &[0b1010_0000, 1, 1]);
    assert_eq!(f.len(), 260);
}

#[test]
fn value_of_65536_bytes_wraps_its_length() {
    let f = frame_of_len(65536);
    assert_eq!(&f[..3], &[0b1010_0000, 0, 0]);
}

#[test]
fn value_of_65537_bytes_has_three_length_bytes() {
    let f = frame_of_len(65537);
    assert_eq!(&f[..4], &[0b1011_0000, 1, 0, 1]);
    assert_eq!(f.len(), 65541);
}

#[test]
fn largest_value() {
    let f = frame_of_len(0x100_0000);
    assert_eq!(&f[..4], &[0b1011_0000, 0, 0, 0]);
    assert_eq!(f.len(), 0x100_0004);
}
