use bf_interp::cli::{has_source_extension, read_arg};

#[test]
fn read_arg_takes_the_last_argument() {
    let mut args = vec!["file.bf".to_string(), "prog".to_string()];
    assert_eq!(read_arg(&mut args), Some("prog".to_string()));
    assert_eq!(read_arg(&mut args), Some("file.bf".to_string()));
    assert_eq!(read_arg(&mut args), None);
    assert!(args.is_empty());
}

#[test]
fn source_files_end_in_bf() {
    assert!(has_source_extension(b"hello.bf"));
    assert!(has_source_extension(b".bf"));
    assert!(!has_source_extension(b"hello.b"));
    assert!(!has_source_extension(b"hello.bfx"));
    assert!(!has_source_extension(b"bf"));
    assert!(!has_source_extension(b""));
}
