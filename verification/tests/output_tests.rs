use grabstuff::output::{check_output_size, choose_destination, OutputDestination, OutputError, MAX_OUTPUT_SIZE};

#[test]
fn test_output_size_limit() {
    let large_content = "x".repeat(101 * 1024 * 1024);
    let result = check_output_size(large_content.len());

    assert!(result.is_err());
    assert!(result.unwrap_err().message().contains("100MB"));
}

#[test]
fn test_output_within_limit() {
    let content = "x".repeat(1024);
    let result = check_output_size(content.len());
    assert!(result.is_ok());
}

#[test]
fn size_limit_is_inclusive() {
    assert!(check_output_size(MAX_OUTPUT_SIZE).is_ok());
    match check_output_size(MAX_OUTPUT_SIZE + 1) {
        Err(OutputError::TooLarge(n)) => assert_eq!(n, 104_857_601),
        Ok(()) => panic!("one byte over the limit must be refused"),
    }
    assert_eq!(
        OutputError::TooLarge(104_857_601).message(),
        "Output exceeds maximum size of 100MB (104857601 bytes)"
    );
}

#[test]
fn destination_choice() {
    assert!(matches!(
        choose_destination(true, Some("o.md".to_string())),
        OutputDestination::Clipboard
    ));
    match choose_destination(false, Some("o.md".to_string())) {
        OutputDestination::File(p) => assert_eq!(p, "o.md"),
        other => panic!("unexpected {:?}", other),
    }
    assert!(matches!(choose_destination(false, None), OutputDestination::Stdout));
}
