use nodenet::edit::split_ref;
use nodenet::refs::{scan_refs, to_chars};

fn refs(code: &str) -> Vec<String> {
    scan_refs(code)
}

#[test]
fn literal_references_are_found_in_order() {
    assert_eq!(refs("p('../A/x') + 1.0"), vec!["../A/x"]);
    assert_eq!(refs("p(\"b\") * p('/obj/c/d')"), vec!["b", "/obj/c/d"]);
    assert_eq!(refs("p( 'x' )"), vec!["x"]);
    assert_eq!(refs("p(\t\"y\"\t)"), vec!["y"]);
    assert_eq!(refs("(p('a'))"), vec!["a"]);
    assert_eq!(refs("1+p('')"), vec![""]);
    assert_eq!(refs("p('a\"b')"), vec!["a\"b"]);
    assert_eq!(refs("p('é/ü')"), vec!["é/ü"]);
}

#[test]
fn other_calls_are_not_references() {
    assert!(refs("").is_empty());
    assert!(refs("3.14159").is_empty());
    assert!(refs("v('time') * 2").is_empty());
    assert!(refs("map('x')").is_empty());
    assert!(refs("t.p('x')").is_empty());
    assert!(refs("t:p('x')").is_empty());
    assert!(refs("_p('x')").is_empty());
    assert!(refs("p ('x')").is_empty());
    assert!(refs("p('x").is_empty());
    assert!(refs("p('x\")").is_empty());
    assert!(refs("p('x' .. y)").is_empty());
    assert!(refs("p('a\\'b')").is_empty());
    assert!(refs("p('a\nb')").is_empty());
    assert!(refs("p(x)").is_empty());
    assert!(refs("p").is_empty());
}

#[test]
fn reference_splits_behind_last_slash() {
    assert_eq!(split_ref("../A/x"), 5);
    assert_eq!(split_ref("x"), 0);
    assert_eq!(split_ref("/x"), 1);
    assert_eq!(split_ref("a/"), 2);
    assert_eq!(split_ref(""), 0);
    assert_eq!(split_ref("é/ü"), 2);
}

#[test]
fn characters_are_copied() {
    assert_eq!(to_chars("aé/"), vec!['a', 'é', '/']);
    assert!(to_chars("").is_empty());
}
