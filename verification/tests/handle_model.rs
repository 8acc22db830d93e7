use texio::handles::{InputHandle, InputOrigin, OutputHandle};

#[test]
fn input_handle_reads_a_bounded_prefix() {
    let h = InputHandle::new(
        "notes.txt".to_string(),
        InputOrigin::Filesystem,
        b"0123456789".to_vec(),
    );
    assert_eq!(h.name().as_str(), "notes.txt");
    assert_eq!(h.origin(), InputOrigin::Filesystem);
    assert_eq!(h.read_prefix(4), b"0123".to_vec());
    assert_eq!(h.read_prefix(64), b"0123456789".to_vec());
    assert_eq!(h.read_prefix(0), Vec::<u8>::new());
    assert_eq!(h.into_contents(), b"0123456789".to_vec());
}

#[test]
fn output_handle_accumulates_writes_in_order() {
    let mut h = OutputHandle::new("log".to_string());
    assert_eq!(h.name().as_str(), "log");
    h.write(b"");
    h.write(b"alpha");
    h.write(b"-beta");
    assert_eq!(h.into_contents(), b"alpha-beta".to_vec());
}
