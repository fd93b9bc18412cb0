use toipe::ToipeError;

#[test]
fn context_goes_in_front_of_the_message() {
    let error = ToipeError::from("no such file".to_string()).with_context("word list: ");
    assert_eq!(error.msg, "word list: no such file");
}

#[test]
fn error_from_a_string_keeps_the_string() {
    let error: ToipeError = String::from("broken").into();
    assert_eq!(error.msg, "broken");
    assert_eq!(error.to_text(), "ToipeError: broken");
}
