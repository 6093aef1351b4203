use sexpr::{File, Object};

#[test]
fn render_compact_list() {
    let (obj, _) = Object::from_str("( hello   world )").unwrap();
    assert_eq!(obj.to_text(), "(hello world)");
}

#[test]
fn render_leaves() {
    let (num, _) = Object::from_str("1234").unwrap();
    assert_eq!(num.to_text(), "1234");
    let (s, _) = Object::from_str(r##""Hello, world!""##).unwrap();
    assert_eq!(s.to_text(), "\"Hello, world!\"");
    let (esc, _) = Object::from_str(r##""a\nb""##).unwrap();
    assert_eq!(esc.to_text(), "\"a\\nb\"");
}

#[test]
fn render_one_child_per_line() {
    let (obj, _) = Object::from_str("(a b c)").unwrap();
    assert_eq!(obj.to_text(), "(a\n    b\n    c)");
}

#[test]
fn render_nested_indentation() {
    let (obj, _) = Object::from_str("(a (b c d))").unwrap();
    assert_eq!(obj.to_text(), "(a\n    (b\n        c\n        d))");
}

#[test]
fn render_empty_list() {
    let (obj, _) = Object::from_str("()").unwrap();
    assert_eq!(obj.to_text(), "()");
}

#[test]
fn debug_text_shapes() {
    let (obj, _) = Object::from_str(r##"(print "Hello, world!" 1234)"##).unwrap();
    assert_eq!(
        obj.debug_text(),
        "List([Ident(print),String(\"Hello, world!\"),Number(1234)])"
    );
}

#[test]
fn reparse_rendered_tree_keeps_shape() {
    let source = r##"(print
    (object
        (name "Clinery")
        (years_experience 6))
    1234)"##;
    let (obj, _) = Object::from_str(source).unwrap();
    let rendered = obj.to_text();
    let (again, _) = Object::from_str(&rendered).unwrap();
    assert_eq!(obj.debug_text(), again.debug_text());
}

#[test]
fn reparse_rendered_leaves_keeps_text() {
    for source in [r##""with \"quotes\" and \\slashes""##, "word", "-12.5"] {
        let (obj, _) = Object::from_str(source).unwrap();
        let rendered = obj.to_text();
        let (again, _) = Object::from_str(&rendered).unwrap();
        assert_eq!(obj.str_data(), again.str_data());
        assert_eq!(obj.debug_text(), again.debug_text());
    }
}

#[test]
fn parse_file_collects_top_level_nodes() {
    let file = File::parse_file("1 2 three ; trailing\n").unwrap();
    assert_eq!(file.items.len(), 3);
    assert_eq!(file.items[0].str_data(), Some("1"));
    assert_eq!(file.items[1].str_data(), Some("2"));
    assert_eq!(file.items[2].str_data(), Some("three"));
}

#[test]
fn parse_file_of_whitespace_is_empty() {
    let file = File::parse_file("  \t\r\n ; only a comment").unwrap();
    assert_eq!(file.items.len(), 0);
}
