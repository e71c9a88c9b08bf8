use sklang::lexer::Lexer;
use sklang::location::{SkFile, SkLine};

#[test]
fn positions_of_offsets() {
    let src = String::from("ab\ncd");
    let file = SkFile::new(&src);
    assert_eq!(file.pos(0), Some((0, 0)));
    assert_eq!(file.pos(2), Some((2, 0)));
    assert_eq!(file.pos(3), Some((0, 1)));
    assert_eq!(file.pos(5), Some((2, 1)));
    assert_eq!(file.pos(6), None);
}

#[test]
fn position_of_a_token() {
    let src = String::from("val x = 1\n  1 +\n");
    let tokens = Lexer::new(&src).scan().unwrap();
    let file = SkFile::new(&src);
    assert_eq!(file.pos(tokens[5].span.start), Some((4, 1)));
    assert_eq!(file.pos(tokens[6].span.start), Some((0, 2)));
}

#[test]
fn empty_source_has_one_line() {
    let file = SkFile::new(&String::new());
    assert_eq!(file.pos(0), Some((0, 0)));
    assert_eq!(file.pos(1), None);
}

#[test]
fn line_column() {
    let line = SkLine::new(3, 6, String::from("cd"));
    assert_eq!(line.column(4), 1);
    assert_eq!(line.content, "cd");
}
