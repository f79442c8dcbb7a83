use css_parser::{CSSDeclaration, ParseError};

fn parsed(input: &str) -> (String, String, bool, String) {
    let (decl, remaining) = CSSDeclaration::parse(input).unwrap();
    (decl.name, decl.value, decl.important, remaining)
}

#[test]
fn parse_declaration_simple() {
    let (name, value, important, remaining) = parsed("color: red");
    assert_eq!(name, "color");
    assert_eq!(value, "red");
    assert_eq!(important, false);
    assert_eq!(remaining, "");
}

#[test]
fn parse_declaration_with_whitespace() {
    let (name, value, important, remaining) = parsed("  color  :  red  ");
    assert_eq!(name, "color");
    assert_eq!(value, "red");
    assert_eq!(important, false);
    assert_eq!(remaining, "");
}

#[test]
fn parse_declaration_hyphenated_property() {
    let (name, value, important, remaining) = parsed("background-color: blue");
    assert_eq!(name, "background-color");
    assert_eq!(value, "blue");
    assert_eq!(important, false);
    assert_eq!(remaining, "");
}

#[test]
fn parse_declaration_vendor_prefix() {
    let (name, value, important, remaining) = parsed("-webkit-transform: rotate(45deg)");
    assert_eq!(name, "-webkit-transform");
    assert_eq!(value, "rotate(45deg)");
    assert_eq!(important, false);
    assert_eq!(remaining, "");
}

#[test]
fn parse_declaration_with_important() {
    let (name, value, important, remaining) = parsed("color: red !important");
    assert_eq!(name, "color");
    assert_eq!(value, "red");
    assert_eq!(important, true);
    assert_eq!(remaining, "");
}

#[test]
fn parse_declaration_complex_value() {
    let (name, value, important, remaining) = parsed("border: 1px solid rgba(255, 0, 0, 0.5)");
    assert_eq!(name, "border");
    assert_eq!(value, "1px solid rgba(255, 0, 0, 0.5)");
    assert_eq!(important, false);
    assert_eq!(remaining, "");
}

#[test]
fn parse_declaration_complex_with_important() {
    let (name, value, important, remaining) = parsed("margin: 10px 20px 30px 40px !important");
    assert_eq!(name, "margin");
    assert_eq!(value, "10px 20px 30px 40px");
    assert_eq!(important, true);
    assert_eq!(remaining, "");
}

#[test]
fn parse_declaration_no_space_around_colon() {
    let (name, value, important, remaining) = parsed("color:red");
    assert_eq!(name, "color");
    assert_eq!(value, "red");
    assert_eq!(important, false);
    assert_eq!(remaining, "");
}

#[test]
fn parse_declaration_stops_at_closing_brace() {
    let (name, value, important, remaining) = parsed("color: red}");
    assert_eq!(name, "color");
    assert_eq!(value, "red");
    assert_eq!(important, false);
    assert_eq!(remaining, "}");
}

#[test]
fn parse_declaration_underscore_property() {
    let (name, value, important, remaining) = parsed("_private: value");
    assert_eq!(name, "_private");
    assert_eq!(value, "value");
    assert_eq!(important, false);
    assert_eq!(remaining, "");
}

#[test]
fn parse_declaration_non_ascii_property() {
    let (name, value, important, remaining) = parsed("caf\u{e9}: brown");
    assert_eq!(name, "caf\u{e9}");
    assert_eq!(value, "brown");
    assert_eq!(important, false);
    assert_eq!(remaining, "");
}

#[test]
fn parse_declaration_numeric_value() {
    let (name, value, important, remaining) = parsed("z-index: 999");
    assert_eq!(name, "z-index");
    assert_eq!(value, "999");
    assert_eq!(important, false);
    assert_eq!(remaining, "");
}

#[test]
fn parse_declaration_leading_whitespace() {
    let (name, value, important, remaining) = parsed("   color: red");
    assert_eq!(name, "color");
    assert_eq!(value, "red");
    assert_eq!(important, false);
    assert_eq!(remaining, "");
}

#[test]
fn parse_declaration_fails_missing_colon() {
    assert!(CSSDeclaration::parse("color red").is_err());
}

#[test]
fn parse_declaration_fails_empty_input() {
    assert!(CSSDeclaration::parse("").is_err());
}

#[test]
fn parse_declaration_fails_no_property() {
    assert!(CSSDeclaration::parse(": red").is_err());
}

#[test]
fn parse_declaration_url_value() {
    let (name, value, important, remaining) = parsed("background-image: url('test.jpg')");
    assert_eq!(name, "background-image");
    assert_eq!(value, "url('test.jpg')");
    assert_eq!(important, false);
    assert_eq!(remaining, "");
}

#[test]
fn test_new() {
    let decl = CSSDeclaration::new("x", "y", None);
    assert_eq!(decl.name, "x");
    assert_eq!(decl.value, "y");
    assert_eq!(decl.important, false);

    let decl_important = CSSDeclaration::new("x", "y", Some(true));
    assert_eq!(decl_important.name, "x");
    assert_eq!(decl_important.value, "y");
    assert_eq!(decl_important.important, true);
}

#[test]
fn test_from_string_simple() {
    let decl = CSSDeclaration::from_string("color: red;").unwrap();
    assert_eq!(decl.name, "color");
    assert_eq!(decl.value, "red");
    assert_eq!(decl.important, false);
}

#[test]
fn test_from_string_values_with_whitespace() {
    let decl = CSSDeclaration::from_string("border: 1px solid red;").unwrap();
    assert_eq!(decl.name, "border");
    assert_eq!(decl.value, "1px solid red");
    assert_eq!(decl.important, false);
}

#[test]
fn test_from_string_no_semi() {
    let decl = CSSDeclaration::from_string("color: red").unwrap();
    assert_eq!(decl.name, "color");
    assert_eq!(decl.value, "red");
    assert_eq!(decl.important, false);
}

#[test]
fn test_from_string_numeric_val() {
    let decl = CSSDeclaration::from_string("padding: 10px").unwrap();
    assert_eq!(decl.name, "padding");
    assert_eq!(decl.value, "10px");
    assert_eq!(decl.important, false);
}

#[test]
fn test_from_string_prefix() {
    let decl = CSSDeclaration::from_string("-webkit-transition: .2s all").unwrap();
    assert_eq!(decl.name, "-webkit-transition");
    assert_eq!(decl.value, ".2s all");
    assert_eq!(decl.important, false);
}

#[test]
fn test_to_string() {
    let decl = CSSDeclaration::from_string("color: red;").unwrap();
    let decl_str = decl.to_string();
    assert_eq!(decl_str, "color: red;");
}

#[test]
fn test_to_string_important() {
    let decl = CSSDeclaration::new("color", "red", Some(true));
    assert_eq!(decl.to_string(), "color: red !important;");
}

// Further cases.

#[test]
fn declaration_parse_important_gives_flag_and_no_remainder() {
    let (decl, remaining) = CSSDeclaration::parse("color: red !important").unwrap();
    assert_eq!(decl, CSSDeclaration::new("color", "red", Some(true)));
    assert_eq!(remaining, "");
}

#[test]
fn declaration_parse_consumes_one_semicolon() {
    let (decl, remaining) = CSSDeclaration::parse("color: red; margin: 10px").unwrap();
    assert_eq!(decl, CSSDeclaration::new("color", "red", None));
    assert_eq!(remaining, " margin: 10px");
    let (_, remaining) = CSSDeclaration::parse("color: red;;").unwrap();
    assert_eq!(remaining, ";");
}

#[test]
fn declaration_important_variants() {
    for input in ["a: red!important", "a: red  !  important", "a:\tred\n!\nimportant;"] {
        let (decl, remaining) = CSSDeclaration::parse(input).unwrap();
        assert_eq!(decl, CSSDeclaration::new("a", "red", Some(true)));
        assert_eq!(remaining, "");
    }
}

#[test]
fn declaration_bang_without_keyword_ends_value() {
    let (decl, remaining) = CSSDeclaration::parse("a: x!y").unwrap();
    assert_eq!(decl, CSSDeclaration::new("a", "x", None));
    assert_eq!(remaining, "!y");
    let (decl, remaining) = CSSDeclaration::parse("a: x !imp").unwrap();
    assert_eq!(decl, CSSDeclaration::new("a", "x", None));
    assert_eq!(remaining, "!imp");
}

#[test]
fn declaration_value_stops_at_braces() {
    let (decl, remaining) = CSSDeclaration::parse("a: red{").unwrap();
    assert_eq!(decl.value, "red");
    assert_eq!(remaining, "{");
}

#[test]
fn declaration_errors_are_malformed_declaration() {
    for input in ["", "   ", "123invalid: x", "@invalid: x", "color red", ": red", "color:", "color: ;", "color: !important", "a:\u{a0};"] {
        assert_eq!(CSSDeclaration::parse(input), Err(ParseError::MalformedDeclaration), "{:?}", input);
    }
}

#[test]
fn declaration_from_string_error_message() {
    assert_eq!(CSSDeclaration::from_string("color red"), Err("Failed to parse CSS declaration".to_string()));
}

#[test]
fn declaration_value_trims_unicode_white_space() {
    let (decl, _) = CSSDeclaration::parse("a: \u{a0}x y\u{3000} ;").unwrap();
    assert_eq!(decl.value, "x y");
}

#[test]
fn declaration_round_trip_on_examples() {
    for (name, value, important) in [("color", "red", false), ("margin", "0 auto", true), ("-x_1", "url(a.png)", false), ("caf\u{e9}", "#fff", true)] {
        let decl = CSSDeclaration::new(name, value, Some(important));
        let (back, remaining) = CSSDeclaration::parse(&decl.to_string()).unwrap();
        assert_eq!(back, decl);
        assert_eq!(remaining, "");
    }
}

#[test]
fn declaration_idempotent_on_examples() {
    for input in ["  color  :  red  ", "a:b!important;rest", "x-y: 1px 2px }"] {
        let (first, _) = CSSDeclaration::parse(input).unwrap();
        let (second, remaining) = CSSDeclaration::parse(&first.to_string()).unwrap();
        assert_eq!(second, first);
        assert_eq!(remaining, "");
    }
}
