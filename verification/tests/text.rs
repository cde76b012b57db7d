use serve_yew::text::{
    chars_of, ends_with, last_index_of, same_chars, same_text, slice_of, starts_with,
};

#[test]
fn chars_and_slices() {
    let v = chars_of("a/b\u{e9}c");
    assert_eq!(v, vec!['a', '/', 'b', '\u{e9}', 'c']);
    assert_eq!(slice_of(&v, 1, 4), vec!['/', 'b', '\u{e9}']);
    assert_eq!(slice_of(&v, 2, 2), Vec::<char>::new());
    assert_eq!(chars_of(""), Vec::<char>::new());
}

#[test]
fn text_comparison() {
    assert!(same_text("abc", "abc"));
    assert!(!same_text("abc", "abd"));
    assert!(!same_text("abc", "ab"));
    assert!(same_text("", ""));
    assert!(same_chars(&chars_of("x"), &chars_of("x")));
    assert!(!same_chars(&chars_of("x"), &chars_of("y")));
}

#[test]
fn prefixes_and_suffixes() {
    let v = chars_of("assets/logo.svg");
    assert!(starts_with(&v, &chars_of("assets/")));
    assert!(starts_with(&v, &chars_of("")));
    assert!(!starts_with(&v, &chars_of("asset/")));
    assert!(!starts_with(&chars_of("as"), &chars_of("assets/")));
    assert!(ends_with(&v, &chars_of(".svg")));
    assert!(ends_with(&v, &chars_of("")));
    assert!(!ends_with(&v, &chars_of(".png")));
    assert!(!ends_with(&chars_of("vg"), &chars_of(".svg")));
}

#[test]
fn last_index() {
    assert_eq!(last_index_of(&chars_of("a.b.c"), '.'), Some(3));
    assert_eq!(last_index_of(&chars_of(".abc"), '.'), Some(0));
    assert_eq!(last_index_of(&chars_of("abc"), '.'), None);
    assert_eq!(last_index_of(&chars_of(""), '.'), None);
}
