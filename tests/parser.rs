use idle::error::ErrorKind;
use idle::lexer::{Lexer, TokenType};
use idle::parser::{parse, parse_package_file, PinKind};

fn pins(list: &Vec<idle::parser::Pin>) -> Vec<(String, PinKind)> {
    list.iter().map(|p| (p.ident().clone(), p.kind())).collect()
}

#[test]
fn and_gate_header() {
    let file = parse("package AND(in a: logic, in b: logic, out y: logic)".to_string()).unwrap();
    assert_eq!(file.packages().len(), 1);
    let p = &file.packages()[0];
    assert_eq!(p.name(), "AND");
    assert_eq!(pins(p.inputs()), vec![("a".to_string(), PinKind::Logic), ("b".to_string(), PinKind::Logic)]);
    assert_eq!(pins(p.outputs()), vec![("y".to_string(), PinKind::Logic)]);
    assert!(p.body().is_empty());
}

#[test]
fn two_packages_keep_source_order() {
    let src = "package FIRST(in a: analog)\n~ second one\npackage SECOND(out q: clock)";
    let file = parse(src.to_string()).unwrap();
    let names: Vec<&str> = file.packages().iter().map(|p| p.name().as_str()).collect();
    assert_eq!(names, vec!["FIRST", "SECOND"]);
    assert_eq!(pins(file.packages()[0].inputs()), vec![("a".to_string(), PinKind::Analog)]);
    assert_eq!(pins(file.packages()[1].outputs()), vec![("q".to_string(), PinKind::Clock)]);
}

#[test]
fn missing_colon_is_unexpected_token() {
    let e = parse("package P(in a logic)".to_string()).unwrap_err();
    assert_eq!(e.kind, ErrorKind::UnexpectedToken { expected: TokenType::Colon, found: TokenType::Ident });
}

#[test]
fn unterminated_string_fails_parse() {
    let e = parse("\"abc".to_string()).unwrap_err();
    assert_eq!(e.kind, ErrorKind::UnterminatedString);
}

#[test]
fn unknown_pin_type_is_rejected() {
    let e = parse("package P(in a: wire)".to_string()).unwrap_err();
    assert_eq!(e.kind, ErrorKind::InvalidPinType);
}

#[test]
fn top_level_must_be_package() {
    let e = parse("module P()".to_string()).unwrap_err();
    assert_eq!(e.kind, ErrorKind::MalformedPackageFile);
    assert_eq!((e.line, e.column), (0, 6));
}

#[test]
fn non_pin_inside_list_is_rejected() {
    let e = parse("package P(a: logic)".to_string()).unwrap_err();
    assert_eq!(e.kind, ErrorKind::UnexpectedToken { expected: TokenType::CParen, found: TokenType::Ident });
}

#[test]
fn stray_commas_are_tolerated() {
    let file = parse("package P(, in a: logic,, out b: clock,)".to_string()).unwrap();
    let p = &file.packages()[0];
    assert_eq!(pins(p.inputs()), vec![("a".to_string(), PinKind::Logic)]);
    assert_eq!(pins(p.outputs()), vec![("b".to_string(), PinKind::Clock)]);
}

#[test]
fn empty_source_has_no_packages() {
    let file = parse("  ~ nothing here\n".to_string()).unwrap();
    assert!(file.packages().is_empty());
}

#[test]
fn unclosed_pin_list_is_rejected() {
    let e = parse("package P(in a: logic".to_string()).unwrap_err();
    assert_eq!(e.kind, ErrorKind::UnexpectedToken { expected: TokenType::CParen, found: TokenType::Empty });
}

#[test]
fn parse_package_file_uses_given_lexer() {
    let mut lexer = Lexer::new("package NOT(in a: logic, out y: logic)".to_string());
    let file = parse_package_file(&mut lexer).unwrap();
    assert_eq!(file.packages()[0].name(), "NOT");
    assert_eq!(lexer.token.ttype, TokenType::Empty);
}

#[test]
fn pin_kind_from_name() {
    assert_eq!(PinKind::from_name(&"logic".to_string()), Some(PinKind::Logic));
    assert_eq!(PinKind::from_name(&"analog".to_string()), Some(PinKind::Analog));
    assert_eq!(PinKind::from_name(&"clock".to_string()), Some(PinKind::Clock));
    assert_eq!(PinKind::from_name(&"Logic".to_string()), None);
}
