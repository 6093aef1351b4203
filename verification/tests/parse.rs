use sexpr::{Location, Object};

fn loc(line: usize, column: usize, index: usize) -> Location {
    Location { line, column, index }
}

#[test]
fn test_string() {
    let contents = r##""Hello world!""##;
    let (obj, len) = Object::from_str(contents).unwrap();
    assert!(len == 14);
    assert_eq!(obj, Object::String(loc(0, 0, 0), String::from(&contents[1..13]), loc(0, 14, 14)));
}

#[test]
fn test_number() {
    let contents = r##"1234 5678"##;
    let (obj, len) = Object::from_str(contents).unwrap();
    assert!(len == 4);
    let start = Location { line: 0, column: 0, index: 0 };
    let end = Location { line: 0, column: 4, index: 4 };
    assert_eq!(obj, Object::Number(start, contents[start.index..end.index].to_string(), end));
}

#[test]
fn test_ident() {
    let contents = r##"an_identifier another_one"##;
    let (obj, len) = Object::from_str(contents).unwrap();
    assert!(len == 13);
    let start = Location { line: 0, column: 0, index: 0 };
    let end = Location { line: 0, column: 13, index: 13 };
    assert_eq!(obj, Object::Ident(start, contents[start.index..end.index].to_string(), end));
}

#[test]
fn test_list1() {
    let contents = r##"(hello world)"##;
    let (obj, len) = Object::from_str(contents).unwrap();
    assert!(len == contents.len());
    assert_eq!(
        obj,
        Object::List(
            Location { line: 0, column: 0, index: 0 },
            vec![
                Object::Ident(
                    Location { line: 0, column: 1, index: 1 },
                    "hello".to_string(),
                    Location { line: 0, column: 6, index: 6 }
                ),
                Object::Ident(
                    Location { line: 0, column: 7, index: 7 },
                    "world".to_string(),
                    Location { line: 0, column: 12, index: 12 }
                ),
            ],
            Location { line: 0, column: 13, index: 13 }
        )
    );
}

#[test]
fn test_list2() {
    let contents = r##"(print "Hello, world!" 1234)"##;
    let (obj, len) = Object::from_str(contents).unwrap();
    assert!(len == contents.len());
    assert_eq!(
        obj,
        Object::List(
            loc(0, 0, 0),
            vec![
                Object::Ident(loc(0, 1, 1), "print".to_string(), loc(0, 6, 6)),
                Object::String(loc(0, 7, 7), "Hello, world!".to_string(), loc(0, 22, 22)),
                Object::Number(loc(0, 23, 23), "1234".to_string(), loc(0, 27, 27)),
            ],
            loc(0, 28, 28)
        )
    );
}

#[test]
fn test_list3() {
    let contents = r##"(print
    "Hello, world!")"##;
    let (obj, len) = Object::from_str(contents).unwrap();
    assert!(len == contents.len());
    assert_eq!(
        obj,
        Object::List(
            loc(0, 0, 0),
            vec![
                Object::Ident(loc(0, 1, 1), "print".to_string(), loc(0, 6, 6)),
                Object::String(loc(1, 4, 11), "Hello, world!".to_string(), loc(1, 19, 26)),
            ],
            loc(1, 20, 27)
        )
    );
}

#[test]
fn test_list4() {
    let contents = r##"(print
    (object
        (name "Clinery")
        (years_experience 6))
    1234)"##;
    let (obj, len) = Object::from_str(contents).unwrap();
    assert!(len == contents.len());
    let to_match = Object::List(
        loc(0, 0, 0),
        vec![
            Object::Ident(loc(0, 1, 1), "print".to_string(), loc(0, 6, 6)),
            Object::List(
                loc(1, 4, 11),
                vec![
                    Object::Ident(loc(1, 5, 12), "object".to_string(), loc(1, 11, 18)),
                    Object::List(
                        loc(2, 8, 27),
                        vec![
                            Object::Ident(loc(2, 9, 28), "name".to_string(), loc(2, 13, 32)),
                            Object::String(loc(2, 14, 33), "Clinery".to_string(), loc(2, 23, 42)),
                        ],
                        loc(2, 24, 43),
                    ),
                    Object::List(
                        loc(3, 8, 52),
                        vec![
                            Object::Ident(
                                loc(3, 9, 53),
                                "years_experience".to_string(),
                                loc(3, 25, 69),
                            ),
                            Object::Number(loc(3, 26, 70), "6".to_string(), loc(3, 27, 71)),
                        ],
                        loc(3, 28, 72),
                    ),
                ],
                loc(3, 29, 73),
            ),
            Object::Number(loc(4, 4, 78), "1234".to_string(), loc(4, 8, 82)),
        ],
        loc(4, 9, 83),
    );
    assert_eq!(obj, to_match);
}

#[test]
fn single_word_runs_to_end_of_input() {
    let (obj, len) = Object::from_str("hello").unwrap();
    assert!(len == 5);
    assert_eq!(obj, Object::Ident(loc(0, 0, 0), "hello".to_string(), loc(0, 5, 5)));
}

#[test]
fn single_number_with_separators() {
    let (obj, len) = Object::from_str("12_3.4").unwrap();
    assert!(len == 6);
    assert_eq!(obj, Object::Number(loc(0, 0, 0), "12_3.4".to_string(), loc(0, 6, 6)));
}

#[test]
fn negative_number() {
    let (obj, len) = Object::from_str("-17 x").unwrap();
    assert!(len == 3);
    assert_eq!(obj, Object::Number(loc(0, 0, 0), "-17".to_string(), loc(0, 3, 3)));
}

#[test]
fn lone_minus_is_an_ident() {
    let (obj, len) = Object::from_str("- x").unwrap();
    assert!(len == 1);
    assert_eq!(obj, Object::Ident(loc(0, 0, 0), "-".to_string(), loc(0, 1, 1)));
}

#[test]
fn token_with_letters_is_an_ident() {
    let (obj, len) = Object::from_str("1x2").unwrap();
    assert!(len == 3);
    assert_eq!(obj, Object::Ident(loc(0, 0, 0), "1x2".to_string(), loc(0, 3, 3)));
}

#[test]
fn string_escapes_resolved() {
    let (obj, _) = Object::from_str(r##""a\nb\r\0\"\\c\td""##).unwrap();
    match obj {
        Object::String(_, text, _) => assert_eq!(text, "a\nb\r\0\"\\ctd"),
        _ => panic!("expected a string node"),
    }
}

#[test]
fn comment_is_skipped() {
    let (obj, len) = Object::from_str("; note\nx").unwrap();
    assert!(len == 8);
    assert_eq!(obj, Object::Ident(loc(1, 0, 7), "x".to_string(), loc(1, 1, 8)));
}

#[test]
fn position_after_line_break() {
    let (obj, len) = Object::from_str("\n  x").unwrap();
    assert!(len == 4);
    let Object::Ident(start, _, end) = &obj else { panic!("expected an ident node") };
    assert!(start.line >= 1);
    assert_eq!(*start, loc(1, 2, 3));
    assert_eq!(*end, loc(1, 3, 4));
}

#[test]
fn dotted_token_is_a_number() {
    let (obj, len) = Object::from_str("1.5 x").unwrap();
    assert!(len == 3);
    assert_eq!(obj, Object::Number(loc(0, 0, 0), "1.5".to_string(), loc(0, 3, 3)));
}

#[test]
fn literal_line_break_inside_string() {
    let (obj, len) = Object::from_str("\"a\nb\"").unwrap();
    assert!(len == 5);
    assert_eq!(obj, Object::String(loc(0, 0, 0), "a\nb".to_string(), loc(1, 2, 5)));
}

#[test]
fn leaf_accessors() {
    let (obj, _) = Object::from_str("(a)").unwrap();
    assert!(obj.is_list());
    assert_eq!(obj.str_data(), None);
    let (num, _) = Object::from_str("42").unwrap();
    assert!(!num.is_list());
    assert_eq!(num.str_data(), Some("42"));
}
