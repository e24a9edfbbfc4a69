use mdbook_ifdef::flags::{parse_flags, FlagsHolder};

#[test]
fn new_holds_the_given_names() {
    let holder = FlagsHolder::new(vec!["abc".to_owned(), "bbb".to_owned(), "abc".to_owned()]);
    assert!(holder.contains("abc"));
    assert!(holder.contains("bbb"));
    assert!(!holder.contains("ab"));
    assert!(!holder.contains("ABC"));
    assert!(!holder.contains(""));
}

#[test]
fn default_holds_nothing() {
    let holder = FlagsHolder::default();
    assert!(!holder.contains("a"));
    assert!(!holder.contains(""));
}

#[test]
fn insert_adds_a_name() {
    let mut holder = FlagsHolder::new(vec!["a".to_owned()]);
    assert!(!holder.contains("b"));
    holder.insert("b".to_owned());
    assert!(holder.contains("a"));
    assert!(holder.contains("b"));
    holder.insert("b".to_owned());
    assert!(holder.contains("b"));
}

#[test]
fn list_is_split_at_white_space_and_commas() {
    let holder = parse_flags("one two,three\n\tfour\r\nfive\u{0C}six", vec![]);
    for name in ["one", "two", "three", "four", "five", "six"] {
        assert!(holder.contains(name));
    }
    for name in ["", "two,three", "one two", "on", "fou"] {
        assert!(!holder.contains(name));
    }
}

#[test]
fn extra_flags_are_added_as_they_are() {
    let holder = parse_flags("a b", vec!["c".to_owned(), "d e".to_owned(), "f,g".to_owned()]);
    for name in ["a", "b", "c", "d e", "f,g"] {
        assert!(holder.contains(name));
    }
    for name in ["d", "e", "f", "g", ""] {
        assert!(!holder.contains(name));
    }
}

#[test]
fn empty_list_holds_nothing() {
    assert!(!parse_flags("", vec![]).contains(""));
    assert!(!parse_flags("  \n\t ", vec![]).contains(""));
    assert!(!parse_flags(" a  b ", vec![]).contains(""));
}

#[test]
fn comma_at_the_edge_of_a_word_lists_the_empty_name() {
    assert!(parse_flags("a,", vec![]).contains(""));
    assert!(parse_flags(",a", vec![]).contains(""));
    assert!(parse_flags("a,,b", vec![]).contains(""));
    assert!(parse_flags(",", vec![]).contains(""));
    assert!(parse_flags("x , y", vec![]).contains(""));
    assert!(parse_flags("a,,b", vec![]).contains("a"));
    assert!(parse_flags("a,,b", vec![]).contains("b"));
}

#[test]
fn other_white_space_does_not_split() {
    let holder = parse_flags("a\u{A0}b c\u{0B}d", vec![]);
    assert!(holder.contains("a\u{A0}b"));
    assert!(holder.contains("c\u{0B}d"));
    assert!(!holder.contains("a"));
    assert!(!holder.contains("c"));
}
