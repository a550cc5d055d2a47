use rusty_structures::error::RustyError;

#[test]
fn rusty_error_keeps_its_reason() {
    let error = RustyError::new(String::from("no room"));
    assert_eq!(error.reason(), "no room");
}
