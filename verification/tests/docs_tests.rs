use rustygenmo::docs::{filename_of, new, Message};

#[test]
fn a_store_keeps_a_trailing_separator() {
    let s = new("corpus");
    assert_eq!(s.root(), "corpus/");
}

#[test]
fn titles_sanitize_into_file_names() {
    assert_eq!(filename_of("My Story"), "My_Story");
    assert_eq!(filename_of(" spaced  out "), "spaced__out");
    assert_eq!(filename_of("what?.txt;/&"), "whattxt");
    assert_eq!(filename_of(""), "");
}

#[test]
fn messages_carry_title_and_text() {
    let m = Message { title: String::from("t"), text: String::from("body") };
    assert_eq!(m.title, "t");
    assert_eq!(m.text, "body");
}
