use libgnl::get_next_line_utils::{ft_calloc, ft_memcpy, ft_memset, ft_strlcpy, index_of};

#[test]
fn memcpy_copies_a_prefix() {
    let mut dst = [9u8; 6];
    ft_memcpy(&mut dst, b"abcdef", 3);
    assert_eq!(&dst, b"abc\x09\x09\x09");
    let mut dst = [1u8, 2];
    ft_memcpy(&mut dst, b"zz", 0);
    assert_eq!(dst, [1, 2]);
}

#[test]
fn memset_fills_a_prefix_with_the_low_byte() {
    let mut s = [7u8; 5];
    ft_memset(&mut s, 0, 3);
    assert_eq!(s, [0, 0, 0, 7, 7]);
    ft_memset(&mut s, 0x141, 2);
    assert_eq!(s, [0x41, 0x41, 0, 7, 7]);
    ft_memset(&mut s, -1, 5);
    assert_eq!(s, [255; 5]);
}

#[test]
fn calloc_zeroes_or_refuses_overflow() {
    assert_eq!(ft_calloc(3, 4), Some(vec![0u8; 12]));
    assert_eq!(ft_calloc(0, 4), Some(vec![]));
    assert_eq!(ft_calloc(5, 0), Some(vec![]));
    assert_eq!(ft_calloc(usize::MAX, 2), None);
    assert_eq!(ft_calloc(2, usize::MAX / 2 + 1), None);
}

#[test]
fn strlcpy_truncates_and_terminates() {
    let mut dst = [b'x'; 8];
    assert_eq!(ft_strlcpy(&mut dst, b"hello\0", 8), 5);
    assert_eq!(&dst, b"hello\0xx");
    let mut dst = [b'x'; 8];
    assert_eq!(ft_strlcpy(&mut dst, b"hello\0", 3), 5);
    assert_eq!(&dst, b"he\0xxxxx");
    let mut dst = [b'x'; 4];
    assert_eq!(ft_strlcpy(&mut dst, b"hello\0", 0), 5);
    assert_eq!(&dst, b"xxxx");
    let mut dst = [b'x'; 2];
    assert_eq!(ft_strlcpy(&mut dst, b"\0", 5), 0);
    assert_eq!(&dst, b"\0x");
}

#[test]
fn index_of_stops_at_the_byte_or_nul() {
    assert_eq!(index_of(b"a,b,c\0", b',', 100), 1);
    assert_eq!(index_of(b"abc\0,", b',', 100), 3);
    assert_eq!(index_of(b"abcdef", b',', 4), 4);
    assert_eq!(index_of(b"abcdef", b',', 0), 0);
    assert_eq!(index_of(b"abcdef", b',', -1), 0);
}
