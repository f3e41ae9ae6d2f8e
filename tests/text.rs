use codegen_sync::{
    add_hidden_preamble, add_preamble, chars_of, find_divergence, min_prefix, normalize_newlines,
    to_uppercase,
};

#[test]
fn preamble_is_doc_comment() {
    let r = add_preamble("cg", String::from("fn a() {}\n"));
    assert_eq!(r, "//! Generated by `cg`, do not edit by hand.\n\nfn a() {}\n");
}

#[test]
fn hidden_preamble_is_plain_comment() {
    let r = add_hidden_preamble("codegen_requester_methods", String::from("x"));
    assert_eq!(
        r,
        "// Generated by `codegen_requester_methods`, do not edit by hand.\n\nx"
    );
}

#[test]
fn preamble_on_empty_text() {
    assert_eq!(add_hidden_preamble("g", String::new()), "// Generated by `g`, do not edit by hand.\n\n");
}

#[test]
fn min_prefix_stops_after_first_difference() {
    assert_eq!(min_prefix("hello world", "hello there"), "hello w");
}

#[test]
fn min_prefix_first_char_differs() {
    assert_eq!(min_prefix("abc", "xbc"), "a");
}

#[test]
fn min_prefix_multibyte() {
    assert_eq!(min_prefix("ñañb", "ñaña"), "ñañb");
}

#[test]
fn no_divergence_for_equal_strings() {
    assert_eq!(find_divergence("abc", "abc"), None);
}

#[test]
fn no_divergence_for_prefix() {
    assert_eq!(find_divergence("abc", "abcdef"), None);
    assert_eq!(find_divergence("", "a"), None);
}

#[test]
fn divergence_position() {
    assert_eq!(find_divergence("hello world", "hello there"), Some(6));
}

#[test]
fn uppercase_first_letter() {
    assert_eq!(to_uppercase("hello"), "Hello");
    assert_eq!(to_uppercase("sendMessage"), "SendMessage");
}

#[test]
fn uppercase_non_ascii_first_letter() {
    assert_eq!(to_uppercase("éte"), "Éte");
    assert_eq!(to_uppercase("ßx"), "SSx");
}

#[test]
fn uppercase_keeps_already_upper() {
    assert_eq!(to_uppercase("A"), "A");
}

#[test]
fn normalize_collapses_crlf() {
    assert_eq!(normalize_newlines("a\r\nb\r\n"), "a\nb\n");
}

#[test]
fn normalize_keeps_lone_cr() {
    assert_eq!(normalize_newlines("a\rb\r\r\nc\r"), "a\rb\r\nc\r");
}

#[test]
fn normalize_empty_and_plain() {
    assert_eq!(normalize_newlines(""), "");
    assert_eq!(normalize_newlines("x\ny"), "x\ny");
}

#[test]
fn chars_in_order() {
    assert_eq!(chars_of("aé\n"), vec!['a', 'é', '\n']);
}
