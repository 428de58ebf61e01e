use flexar::cursor::{Cursor, FileContents, MutCursor, Position};

#[test]
fn advance_walks_lines_and_newlines() {
    let mut c = Cursor::new(String::from("f"), "ab\ncd");
    assert_eq!((c.ln, c.ln_idx), (1, 1));
    assert_eq!(c.get_char(), Some('a'));
    assert_eq!(c.advance(), Some('b'));
    assert_eq!(c.advance(), Some('\n'));
    assert_eq!((c.ln, c.ln_idx), (1, 3));
    assert_eq!(c.advance(), Some('c'));
    assert_eq!((c.ln, c.ln_idx), (2, 1));
    assert_eq!(c.advance(), Some('d'));
    assert_eq!(c.advance(), Some('\n'));
    // terminal state: advancing past the end changes nothing
    assert_eq!(c.advance(), None);
    assert_eq!((c.ln, c.ln_idx), (2, 3));
    assert_eq!(c.advance(), None);
    assert_eq!((c.ln, c.ln_idx), (2, 3));
}

#[test]
fn empty_line_yields_one_newline() {
    let mut c = Cursor::new(String::from("f"), "a\n\nb");
    assert_eq!(c.advance(), Some('\n'));
    assert_eq!(c.advance(), Some('\n'));
    assert_eq!((c.ln, c.ln_idx), (2, 1));
    assert_eq!(c.advance(), Some('b'));
    assert_eq!((c.ln, c.ln_idx), (3, 1));
}

#[test]
fn revance_after_advance_restores_the_cursor() {
    // across a line boundary and in mid-line alike
    let mut c = Cursor::new(String::from("f"), "ab\ncd");
    for _ in 0..4 {
        let before = (c.ln, c.ln_idx);
        let ch = c.advance();
        assert!(ch.is_some());
        c.revance();
        assert_eq!((c.ln, c.ln_idx), before);
        c.advance();
    }
}

#[test]
fn revance_at_start_changes_nothing() {
    let mut c = Cursor::new(String::from("f"), "ab");
    assert_eq!(c.revance(), None);
    assert_eq!((c.ln, c.ln_idx), (1, 1));
}

#[test]
fn combine_takes_start_of_first_and_end_of_second() {
    let a = Position::new_oneline("f", "hello world", Some((2, 4)));
    let b = Position::new_oneline("f", "hello world", Some((7, 9)));
    let c = a.combine(&b);
    assert_eq!((c.0.ln, c.0.ln_idx), (1, 2));
    assert_eq!((c.1.ln, c.1.ln_idx), (1, 9));
}

#[test]
fn new_oneline_defaults_to_the_whole_line() {
    let p = Position::new_oneline("f", "hello", None);
    assert_eq!(p.0.ln_idx, 1);
    assert_eq!(p.1.ln_idx, 5);
}

#[test]
fn file_contents_split_on_newlines() {
    let fc = FileContents::new("a\nbb\n\nccc");
    assert_eq!(fc.0.len(), 4);
    assert_eq!(fc.0[0], "a");
    assert_eq!(fc.0[1], "bb");
    assert_eq!(fc.0[2], "");
    assert_eq!(fc.0[3], "ccc");
}

#[test]
fn mut_cursor_spawn_starts_at_the_end() {
    let mut m = MutCursor::new(Cursor::new(String::from("f"), "abc"));
    m.advance();
    m.advance();
    let child = m.spawn();
    assert_eq!(child.pos_start.ln_idx, m.pos_end.ln_idx);
    assert_eq!(child.pos_end.ln_idx, m.pos_end.ln_idx);
    assert_eq!(child.current_char, m.current_char);
}

#[test]
fn mut_cursor_tracks_the_stepped_on_character() {
    let mut m = MutCursor::new(Cursor::new(String::from("f"), "ab"));
    assert!(m.current_char.is_none());
    m.advance();
    assert_eq!(m.current_char, Some('b'));
    m.advance();
    assert_eq!(m.current_char, Some('\n'));
    m.revance();
    assert_eq!(m.current_char, Some('b'));
}

#[test]
fn dupe_preserves_the_cursor() {
    let mut c = Cursor::new(String::from("f"), "xyz");
    c.advance();
    let d = c.dupe();
    assert_eq!((d.ln, d.ln_idx), (c.ln, c.ln_idx));
    assert_eq!(d.get_char(), c.get_char());
}
