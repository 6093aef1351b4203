use sexpr::{File, Object, ObjectParseError};

#[test]
fn lone_closing_paren_fails_at_offset_zero() {
    let err = Object::from_str(")").unwrap_err();
    assert_eq!(err.err, ObjectParseError::ExtraClosingParen);
    assert_eq!(err.loc.index, 0);
    assert_eq!(err.loc.line, 0);
    assert_eq!(err.loc.column, 0);
}

#[test]
fn unclosed_list_fails_at_end_of_input() {
    let err = Object::from_str("(print").unwrap_err();
    assert_eq!(err.err, ObjectParseError::NoClosingParen);
    assert_eq!(err.loc.index, 6);
}

#[test]
fn unterminated_string_fails_at_end_of_input() {
    // This reader commits to NoClosingParen for an unterminated
    // string; the NoClosingQuote kind stays reserved.
    let err = Object::from_str("\"unterminated").unwrap_err();
    assert_eq!(err.err, ObjectParseError::NoClosingParen);
    assert_eq!(err.loc.index, 13);
}

#[test]
fn empty_input_reports_no_data() {
    let err = Object::from_str("").unwrap_err();
    assert_eq!(err.err, ObjectParseError::NoData);
    assert_eq!(err.loc.index, 0);
    let err2 = Object::from_str("   ").unwrap_err();
    assert_eq!(err2.err, ObjectParseError::NoData);
    assert_eq!(err2.loc.index, 3);
}

#[test]
fn error_after_line_break_reports_later_line() {
    let err = Object::from_str("(\n").unwrap_err();
    assert_eq!(err.err, ObjectParseError::NoClosingParen);
    assert_eq!(err.loc.line, 1);
    assert_eq!(err.loc.column, 0);
    assert_eq!(err.loc.index, 2);
}

#[test]
fn parse_file_propagates_faults() {
    let err = File::parse_file("ok\n   ) x\nmore").unwrap_err();
    assert_eq!(err.err, ObjectParseError::ExtraClosingParen);
    assert_eq!(err.loc.index, 6);
    assert_eq!(err.loc.line, 1);
}

#[test]
fn error_line_recovers_the_offending_line() {
    let source = "ok\n   ) x\nmore";
    let err = File::parse_file(source).unwrap_err();
    assert_eq!(err.error_line(source), Some(") x".to_string()));
}

#[test]
fn error_line_is_unavailable_past_the_end() {
    let source = "(print";
    let err = Object::from_str(source).unwrap_err();
    assert_eq!(err.error_line(source), None);
}
