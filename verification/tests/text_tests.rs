use cwc::text::{contains_string, is_float_literal, join_all, remove_occurrences, split_text, trim_quotes};

#[test]
fn remove_occurrences_takes_out_every_match() {
    assert_eq!(remove_occurrences("lib/util.cara", ".cara"), "lib/util");
    assert_eq!(remove_occurrences("a.cara/b.cara", ".cara"), "a/b");
    assert_eq!(remove_occurrences("main", ".cara"), "main");
    assert_eq!(remove_occurrences("..cara", ".cara"), ".");
    assert_eq!(remove_occurrences("abc", ""), "abc");
}

#[test]
fn split_text_on_double_colon() {
    assert_eq!(split_text("a::b::c", "::"), vec!["a".to_string(), "b".to_string(), "c".to_string()]);
    assert_eq!(split_text("name", "::"), vec!["name".to_string()]);
    assert_eq!(split_text("", "::"), vec!["".to_string()]);
    assert_eq!(split_text("a:::b", "::"), vec!["a".to_string(), ":b".to_string()]);
    assert_eq!(split_text("::a::", "::"), vec!["".to_string(), "a".to_string(), "".to_string()]);
}

#[test]
fn split_then_join_gives_back_the_text() {
    let text = "std::math::sin";
    let parts = split_text(text, "::");
    assert_eq!(join_all(&parts, "::"), text);
}

#[test]
fn contains_string_finds_equal_strings() {
    let names = vec!["a.cara".to_string(), "b.cara".to_string()];
    assert!(contains_string(&names, &"b.cara".to_string()));
    assert!(!contains_string(&names, &"c.cara".to_string()));
}

#[test]
fn float_literals_as_f64_parsing_accepts_them() {
    for ok in ["1", "1.5", ".5", "5.", "1e3", "1.5E-3", "+2", "-0.25", "inf", "-Infinity", "NaN", "00012"] {
        assert!(is_float_literal(ok), "{}", ok);
        assert!(ok.parse::<f64>().is_ok(), "{}", ok);
    }
    for bad in ["", ".", "e5", "1e", "1.2.3", "--1", "1x", "in", "nan1", "1 "] {
        assert!(!is_float_literal(bad), "{}", bad);
        assert!(bad.parse::<f64>().is_err(), "{}", bad);
    }
}

#[test]
fn quotes_are_trimmed_from_both_ends_only() {
    assert_eq!(trim_quotes("\"main.cara\""), "main.cara");
    assert_eq!(trim_quotes("'\"a\"b'\"'"), "a\"b");
    assert_eq!(trim_quotes("\"\"''"), "");
    assert_eq!(trim_quotes("plain"), "plain");
}
