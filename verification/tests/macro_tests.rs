use cwc::ast::Primary;
use cwc::frontend_types::Span;
use cwc::macro_implementations::HexColorMacro;
use cwc::macros::{CarawayMacro, MacroRegistry};
use std::sync::Arc;

fn numbers(p: &Primary) -> Vec<String> {
    match p {
        Primary::List(items, _) => items
            .iter()
            .map(|i| match i {
                Primary::Number(t, _) => t.clone(),
                _ => panic!("not a number"),
            })
            .collect(),
        _ => panic!("not a list"),
    }
}

#[test]
fn hex_color_expands_to_red_green_blue() {
    let span = Span { start: 3, end: 12 };
    let p = HexColorMacro.expand_primary("  ff8000 ", span).unwrap();
    assert_eq!(numbers(&p), vec!["255".to_string(), "128".to_string(), "0".to_string()]);
    match p {
        Primary::List(_, s) => assert_eq!(s, span),
        _ => panic!("not a list"),
    }
}

#[test]
fn hex_color_accepts_a_plus_sign_before_a_digit() {
    let p = HexColorMacro.expand_primary("+f+A09", Span::default()).unwrap();
    assert_eq!(numbers(&p), vec!["15".to_string(), "10".to_string(), "9".to_string()]);
}

#[test]
fn hex_color_errors() {
    let span = Span::default();
    assert_eq!(
        HexColorMacro.expand_primary("fff", span).err().unwrap(),
        "Hex color must be exactly 6 characters long."
    );
    assert_eq!(HexColorMacro.expand_primary("zz0000", span).err().unwrap(), "Invalid hex for Red");
    assert_eq!(HexColorMacro.expand_primary("00zz00", span).err().unwrap(), "Invalid hex for Green");
    assert_eq!(HexColorMacro.expand_primary("0000-1", span).err().unwrap(), "Invalid hex for Blue");
    assert_eq!(HexColorMacro.expand_primary("\u{e9}1234", span).err().unwrap(), "Invalid hex for Red");
}

#[test]
fn hex_macro_name_and_unsupported_places() {
    assert_eq!(HexColorMacro.name(), "hex");
    assert_eq!(
        HexColorMacro.expand_lhs("x", Span::default()).err().unwrap(),
        "Macro '@hex' cannot be used as an assignment target."
    );
    assert_eq!(
        HexColorMacro.expand_import("x", Span::default()).err().unwrap(),
        "Macro '@hex' cannot be used in an import statement."
    );
}

#[test]
fn registry_finds_macros_by_name_and_replaces_same_names() {
    let reg: MacroRegistry<dyn CarawayMacro> = MacroRegistry::new();
    assert!(reg.get("hex").is_none());
    let reg = reg.with_macro(Arc::new(HexColorMacro));
    assert_eq!(reg.get("hex").unwrap().name(), "hex");
    assert!(reg.get("other").is_none());
    let reg = reg.with_macro(Arc::new(HexColorMacro));
    assert_eq!(reg.get("hex").unwrap().name(), "hex");
    assert!(reg.get("hex").unwrap().expand_primary("000000", Span::default()).is_ok());
}

#[test]
fn registry_replaces_a_macro_of_the_same_name_and_clones_keep_theirs() {
    let first: Arc<dyn CarawayMacro> = Arc::new(HexColorMacro);
    let second: Arc<dyn CarawayMacro> = Arc::new(HexColorMacro);
    let reg: MacroRegistry<dyn CarawayMacro> = MacroRegistry::new().with_macro(first.clone());
    assert_eq!(Arc::strong_count(&first), 2);
    let earlier = reg.clone();
    assert_eq!(Arc::strong_count(&first), 3);
    let reg = reg.with_macro(second.clone());
    // The newer registry let go of the first macro and holds the second; the
    // clone made before still holds the first.
    assert_eq!(Arc::strong_count(&first), 2);
    assert_eq!(Arc::strong_count(&second), 2);
    assert_eq!(reg.get("hex").unwrap().name(), "hex");
    assert_eq!(earlier.get("hex").unwrap().name(), "hex");
}
