use poscar::Spanned;

#[test]
fn words() {
    // test with space at boundaries
    let s = Spanned::new(0, 0, "  aa b   ccc  ");
    assert_eq!(
        s.words(),
        vec![
            Spanned::new(0, 2, "aa"),
            Spanned::new(0, 5, "b"),
            Spanned::new(0, 9, "ccc"),
        ],
    );

    // test nonzero col, and words at boundaries
    let s = s.slice(3, s.len() - 3);
    assert_eq!(
        s.words(),
        vec![
            Spanned::new(0, 3, "a"),
            Spanned::new(0, 5, "b"),
            Spanned::new(0, 9, "cc"),
        ],
    );
}

#[test]
fn words_of_blank_and_tabbed_lines() {
    assert_eq!(Spanned::new(4, 0, " \t \r").words(), vec![]);
    assert_eq!(
        Spanned::new(4, 1, "a\tb").words(),
        vec![Spanned::new(4, 1, "a"), Spanned::new(4, 3, "b")],
    );
}

#[test]
fn control_char_is_first_char_verbatim() {
    assert_eq!(Spanned::new(0, 0, " S").control_char(), Some(' '));
    assert_eq!(Spanned::new(0, 0, "Sel").control_char(), Some('S'));
    assert_eq!(Spanned::new(0, 0, "").control_char(), None);
}

#[test]
fn wrapped_text_stands_at_the_start() {
    let s = Spanned::wrap_arbitrary("  Fe 2");
    assert_eq!((s.line, s.col), (0, 0));
    assert_eq!(s.as_str(), "  Fe 2");
    let w = s.words();
    assert_eq!(w[0].as_str(), "Fe");
    assert_eq!(w[0].col, 2);
    assert_eq!(w[1].col, 5);
}
