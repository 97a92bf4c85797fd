use fortune::colors::{color, Colors};

#[test]
fn test_color() {
    assert_eq!(color(Colors::Red) == "\x1b[1;91m", true)
}

#[test]
fn test_color_end() {
    assert_eq!(color(Colors::End), "\x1b[0m");
}
