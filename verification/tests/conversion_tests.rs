use shadowd::add;
use shadowd::helpers::convertions::{
    be_to_int, be_to_size, be_to_u32, be_to_u64, int_to_be, size_to_be, u32_to_be, u64_to_be,
};
use shadowd::helpers::random_access_file::read_in_range;

#[test]
fn it_adds() {
    assert_eq!(add(2, 2), 4);
}

#[test]
fn writes_big_endian() {
    assert_eq!(u64_to_be(0x0102_0304, 4), vec![1, 2, 3, 4]);
    assert_eq!(u64_to_be(0x0102_0304, 6), vec![0, 0, 1, 2, 3, 4]);
    assert_eq!(u64_to_be(0x0102_0304, 2), vec![3, 4]);
    assert_eq!(u32_to_be(258, 2), vec![1, 2]);
    assert_eq!(size_to_be(5, 5), vec![0, 0, 0, 0, 5]);
    assert_eq!(size_to_be(5, 0), Vec::<u8>::new());
}

#[test]
fn negative_ints_are_sign_extended() {
    assert_eq!(int_to_be(-1, 2), vec![0xff, 0xff]);
    assert_eq!(int_to_be(-2, 4), vec![0xff, 0xff, 0xff, 0xfe]);
    assert_eq!(int_to_be(-1, 17)[0], 0);
    assert_eq!(int_to_be(-1, 17)[1], 0xff);
    assert_eq!(int_to_be(300, 2), vec![1, 44]);
}

#[test]
fn reads_big_endian() {
    assert_eq!(be_to_u64(&[1, 2, 3, 4], 4), 0x0102_0304);
    assert_eq!(be_to_u64(&[1, 2, 3, 4], 2), 0x0102);
    assert_eq!(be_to_u32(&[1, 0, 0, 0, 5], 5), 5);
    assert_eq!(be_to_int(&[0xff, 0xff, 0xff, 0xff], 4), -1);
    assert_eq!(be_to_int(&[0x7f, 0xff, 0xff, 0xff], 4), i32::MAX);
    assert_eq!(be_to_size(&[0, 0, 1, 0], 4), 256);
    assert_eq!(be_to_size(&[9], 0), 0);
}

#[test]
fn reading_back_what_was_written() {
    for v in [0u64, 1, 255, 256, 0xdead_beef, u64::MAX] {
        assert_eq!(be_to_u64(&u64_to_be(v, 8), 8), v);
    }
    assert_eq!(be_to_int(&int_to_be(-12345, 4), 4), -12345);
    assert_eq!(be_to_size(&size_to_be(1_000_000, 5), 5), 1_000_000);
}

#[test]
fn read_range_against_file_size() {
    assert!(read_in_range(100, 90, 10));
    assert!(!read_in_range(100, 91, 10));
    assert!(read_in_range(0, 0, 0));
}

#[test]
fn reading_back_keeps_the_low_bytes() {
    assert_eq!(be_to_u64(&u64_to_be(0x1234_5678, 2), 2), 0x5678);
    assert_eq!(be_to_size(&size_to_be(70_000, 2), 2), 70_000 % 65_536);
    assert_eq!(be_to_int(&int_to_be(-5, 6), 6), -5);
    assert_eq!(be_to_int(&int_to_be(i32::MIN, 4), 4), i32::MIN);
}

#[test]
fn bytes_to_value_to_bytes() {
    let v = vec![3u8, 200, 17];
    assert_eq!(size_to_be(be_to_size(&v, 3), 3), v);
    let w = vec![255u8; 8];
    assert_eq!(u64_to_be(be_to_u64(&w, 8), 8), w);
}
