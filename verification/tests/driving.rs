use nexa::driver::{build, Outcome};
use nexa::errors::Diagnostics;

fn messages(diags: &Diagnostics) -> Vec<String> {
    diags.iter().iter().map(|d| d.message.clone()).collect()
}

#[test]
fn build_compiles_hello() {
    let mut diags = Diagnostics::default();
    match build("fn main() { print(\"Hello NEXA\"); }", &mut diags) {
        Outcome::Compiled(p) => {
            assert_eq!(p.entry, 0);
            assert_eq!(format!("{:?}", p.chunks[0].ops), "[PushStr(0), BuiltinPrint, PushUnit, Pop, Halt]");
        }
        _ => panic!("expected a compiled program"),
    }
    assert!(diags.is_empty());
}

#[test]
fn build_reports_lex_error() {
    let mut diags = Diagnostics::default();
    match build("fn main() { @ }", &mut diags) {
        Outcome::LexError(e) => assert_eq!(e, "unexpected character '@' at byte 12"),
        _ => panic!("expected a lexing error"),
    }
    assert!(diags.is_empty());
}

#[test]
fn build_reports_parse_error() {
    let mut diags = Diagnostics::default();
    assert!(matches!(build("fn main( {}", &mut diags), Outcome::Rejected));
    assert_eq!(messages(&diags).len(), 1);
}

#[test]
fn build_reports_type_errors() {
    let mut diags = Diagnostics::default();
    assert!(matches!(build("fn main() { print(1); }", &mut diags), Outcome::Rejected));
    assert_eq!(messages(&diags), vec!["`print` expects String, got Int".to_string()]);
}

#[test]
fn build_reports_codegen_error() {
    let params: Vec<String> = (0..257).map(|i| format!("p{i}: Int")).collect();
    let src = format!("fn f({}) {{}} fn main() {{}}", params.join(", "));
    let mut diags = Diagnostics::default();
    assert!(matches!(build(&src, &mut diags), Outcome::Rejected));
    assert_eq!(messages(&diags), vec!["too many parameters (MVP limit 256)".to_string()]);
}

#[test]
fn build_refuses_when_diagnostics_were_already_reported() {
    let mut diags = Diagnostics::default();
    diags.error("earlier".to_string());
    assert!(matches!(build("fn main() {}", &mut diags), Outcome::Rejected));
    assert_eq!(messages(&diags), vec!["earlier".to_string()]);
}
