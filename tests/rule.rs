use css_parser::{CSSDeclaration, CSSDeclarationList, CSSRule, ParseError};

#[test]
fn test_basic_rule() {
    let (_, rule) = swap(CSSRule::parse("h1 { color: red; padding: 10px; }").unwrap());
    assert_eq!(rule.selector, "h1");
    assert_eq!(rule.declarations.declarations.len(), 2);
    assert_eq!(rule.declarations.declarations[0], CSSDeclaration::new("color", "red", None));
    assert_eq!(rule.declarations.declarations[1], CSSDeclaration::new("padding", "10px", None));
}

fn swap(parsed: (CSSRule, String)) -> (String, CSSRule) {
    (parsed.1, parsed.0)
}

#[test]
fn test_rule_with_whitespace() {
    let (_, rule) = swap(CSSRule::parse("  div.my-class   {  margin : 0 auto ;  padding : 1em ; }").unwrap());
    assert_eq!(rule.selector, "div.my-class");
    assert_eq!(rule.declarations.declarations.len(), 2);
    assert_eq!(rule.declarations.declarations[0], CSSDeclaration::new("margin", "0 auto", None));
    assert_eq!(rule.declarations.declarations[1], CSSDeclaration::new("padding", "1em", None));
}

#[test]
fn test_rule_no_trailing_semicolon() {
    let (_, rule) = swap(CSSRule::parse("p { font-size: 16px; line-height: 1.5 }").unwrap());
    assert_eq!(rule.selector, "p");
    assert_eq!(rule.declarations.declarations.len(), 2);
    assert_eq!(rule.declarations.declarations[0], CSSDeclaration::new("font-size", "16px", None));
    assert_eq!(rule.declarations.declarations[1], CSSDeclaration::new("line-height", "1.5", None));
}

#[test]
fn test_empty_declarations() {
    let (_, rule) = swap(CSSRule::parse(".empty { }").unwrap());
    assert_eq!(rule.selector, ".empty");
    assert!(rule.declarations.declarations.is_empty());
}

#[test]
fn test_rule_with_newlines() {
    let input = r#"
            .box {
                border: 1px solid black;
                background: white;
            }
        "#;
    let (_, rule) = swap(CSSRule::parse(input).unwrap());
    assert_eq!(rule.selector.trim(), ".box");
    assert_eq!(rule.declarations.declarations.len(), 2);
    assert_eq!(rule.declarations.declarations[0], CSSDeclaration::new("border", "1px solid black", None));
    assert_eq!(rule.declarations.declarations[1], CSSDeclaration::new("background", "white", None));
}

#[test]
fn test_rule_with_multiple_selectors() {
    let (_, rule) = swap(CSSRule::parse("h1, h2, h3 { font-weight: bold; }").unwrap());
    assert_eq!(rule.selector, "h1, h2, h3");
    assert_eq!(rule.declarations.declarations.len(), 1);
    assert_eq!(rule.declarations.declarations[0], CSSDeclaration::new("font-weight", "bold", None));
}

// Further cases.

#[test]
fn rule_without_spaces_leaves_nothing() {
    let (rule, remaining) = CSSRule::parse("div{color: red}").unwrap();
    assert_eq!(rule.selector, "div");
    assert_eq!(remaining, "");
    assert_eq!(rule.declarations.declarations, vec![CSSDeclaration::new("color", "red", None)]);
}

#[test]
fn rule_selectors_kept_whole() {
    for (input, selector) in [
        ("div.container > p:first-child{font-size: 16px}", "div.container > p:first-child"),
        ("input[type=\"text\"]{border: 1px solid gray}", "input[type=\"text\"]"),
        ("\t.nav\t{position: fixed}", ".nav"),
        ("*{box-sizing: border-box}", "*"),
        ("h1 ~ p{color: gray}", "h1 ~ p"),
    ] {
        let (rule, remaining) = CSSRule::parse(input).unwrap();
        assert_eq!(rule.selector, selector);
        assert_eq!(remaining, "");
    }
}

#[test]
fn rule_remainder_is_text_after_brace() {
    let (rule, remaining) = CSSRule::parse("a{}  b{}").unwrap();
    assert_eq!(rule.selector, "a");
    assert_eq!(remaining, "  b{}");
}

#[test]
fn rule_unterminated_selector() {
    assert_eq!(CSSRule::parse("div color: red"), Err(ParseError::UnterminatedSelector));
    assert_eq!(CSSRule::parse(""), Err(ParseError::UnterminatedSelector));
}

#[test]
fn rule_unterminated_block() {
    assert_eq!(CSSRule::parse("div { color: blue; padding: 10px "), Err(ParseError::UnterminatedBlock));
    assert_eq!(CSSRule::parse("div { color: blue;; }"), Err(ParseError::UnterminatedBlock));
    assert_eq!(CSSRule::parse("div { 123: x }"), Err(ParseError::UnterminatedBlock));
}

#[test]
fn rule_from_string_error_message() {
    assert_eq!(CSSRule::from_string("div"), Err("Failed to parse CSS rule".to_string()));
    let rule = CSSRule::from_string("div{a:b} rest").unwrap();
    assert_eq!(rule.selector, "div");
}

#[test]
fn rule_new_and_to_string() {
    let declarations = CSSDeclarationList::from_string("padding: 1em").unwrap();
    let rule = CSSRule::new("h1", &declarations);
    assert_eq!(rule.declarations, declarations);
    assert_eq!(rule.to_string(), "h1 { padding: 1em; }");
    let empty = CSSRule::new(".e", &CSSDeclarationList::new());
    assert_eq!(empty.to_string(), ".e {  }");
}

#[test]
fn rule_idempotent_on_examples() {
    for input in ["  a , b {x:1;;y : 2 !important}", "{}", ".e { ; }x"] {
        if let Ok((first, _)) = CSSRule::parse(input) {
            let (second, remaining) = CSSRule::parse(&first.to_string()).unwrap();
            assert_eq!(second, first);
            assert_eq!(remaining, "");
        }
    }
}
