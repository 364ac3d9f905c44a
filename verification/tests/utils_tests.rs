use banjo::utils::{buffer_to_string, compare_buffers, read_null_string};

#[test]
fn compare_buffers_equal() {
    assert!(compare_buffers(&vec![1, 2, 3], &vec![1, 2, 3]));
    assert!(compare_buffers(&Vec::new(), &Vec::new()));
}

#[test]
fn compare_buffers_different_content() {
    assert!(!compare_buffers(&vec![1, 2, 3], &vec![1, 2, 4]));
}

#[test]
fn compare_buffers_different_length() {
    assert!(!compare_buffers(&vec![1, 2, 3], &vec![1, 2]));
    assert!(!compare_buffers(&vec![1, 2], &vec![1, 2, 3]));
}

#[test]
fn buffer_to_string_renders_decimal_values() {
    assert_eq!(buffer_to_string(&vec![1, 2, 3]), "1 2 3");
    assert_eq!(buffer_to_string(&vec![0, 255, 10]), "0 255 10");
    assert_eq!(buffer_to_string(&vec![42]), "42");
    assert_eq!(buffer_to_string(&Vec::new()), "");
}

#[test]
fn read_null_string_stops_at_terminator() {
    let bytes = vec![b'h', b'i', 0, b'x'];
    let (s, next) = read_null_string(&bytes, 0);
    assert_eq!(s, "hi");
    assert_eq!(next, 3);
}

#[test]
fn read_null_string_takes_rest_without_terminator() {
    let bytes = vec![b'h', b'i'];
    let (s, next) = read_null_string(&bytes, 0);
    assert_eq!(s, "hi");
    assert_eq!(next, 2);
}

#[test]
fn read_null_string_empty_field() {
    let bytes = vec![0, b'a'];
    let (s, next) = read_null_string(&bytes, 0);
    assert_eq!(s, "");
    assert_eq!(next, 1);
}

#[test]
fn read_null_string_from_offset() {
    let bytes = vec![b'a', 0, b'b', b'c', 0];
    let (s, next) = read_null_string(&bytes, 2);
    assert_eq!(s, "bc");
    assert_eq!(next, 5);
}
