use lib::layout::mindmap::{plain_text_lines, split_text_lines};

#[test]
fn split_text_lines_single() {
    let lines = split_text_lines("hello");
    assert_eq!(lines, vec!["hello"]);
}

#[test]
fn split_text_lines_multi() {
    let lines = split_text_lines("a \\n b \\n c");
    assert_eq!(lines, vec!["a", "b", "c"]);
}

#[test]
fn split_text_lines_keeps_empty_pieces() {
    assert_eq!(split_text_lines(""), vec![""]);
    assert_eq!(split_text_lines("\\n"), vec!["", ""]);
    assert_eq!(split_text_lines("a\nb"), vec!["a\nb"]);
}

#[test]
fn plain_text_lines_breaks_and_trims() {
    assert_eq!(plain_text_lines("a\\n b "), vec!["a", "b"]);
    assert_eq!(plain_text_lines("x\r\ny\n"), vec!["x", "y"]);
    assert_eq!(plain_text_lines(""), vec![""]);
    assert_eq!(plain_text_lines("\n\n"), vec!["", ""]);
}

#[test]
fn note_lines_are_clean() {
    for text in ["a\\\\nb", " x \\n\\n y\n z", "", "\\", "tail\\"] {
        let lines = plain_text_lines(text);
        assert!(!lines.is_empty());
        for l in &lines {
            assert_eq!(l.trim(), l);
            assert!(!l.contains('\n'));
            assert!(!l.contains("\\n"));
        }
    }
    assert_eq!(plain_text_lines("a\\\\nb"), vec!["a\\", "b"]);
}
