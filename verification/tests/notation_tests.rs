use min_max_game::notation::{
    read_square, read_squares, square_text, write_squares, ROW_SEPARATOR,
};

#[test]
fn a_square_is_a_space_an_o_or_an_x() {
    assert_eq!(read_square(' '), Some(None));
    assert_eq!(read_square('O'), Some(Some(true)));
    assert_eq!(read_square('X'), Some(Some(false)));
    assert_eq!(read_square('o'), None);
    assert_eq!(read_square('x'), None);
    assert_eq!(read_square('<'), None);
    assert_eq!(read_square('>'), None);
    assert_eq!(read_square(ROW_SEPARATOR), None);
    assert_eq!(square_text(None), " ");
    assert_eq!(square_text(Some(true)), "O");
    assert_eq!(square_text(Some(false)), "X");
    assert_eq!(ROW_SEPARATOR, '┃');
}

#[test]
fn squares_are_read_in_order() {
    assert_eq!(
        read_squares("<O ┃X>"),
        vec![Some(true), None, Some(false)]
    );
    assert_eq!(read_squares(""), vec![]);
    assert_eq!(read_squares("<┃>"), vec![]);
}

#[test]
fn rows_are_separated() {
    let squares = vec![Some(true), None, Some(false), None, None, Some(true)];
    assert_eq!(write_squares(&squares, 3), "<O X┃  O>");
    assert_eq!(write_squares(&squares, 2), "<O ┃X ┃ O>");
    assert_eq!(write_squares(&squares, 6), "<O X  O>");
    assert_eq!(write_squares(&squares, 4), "<O X ┃ O>");
    assert_eq!(write_squares(&squares, 1), "<O┃ ┃X┃ ┃ ┃O>");
    assert_eq!(write_squares(&squares, 0), "<O X  O>");
    assert_eq!(write_squares(&vec![], 3), "<>");
}

#[test]
fn what_is_written_reads_back() {
    let squares = vec![Some(true), None, Some(false), None, None, Some(true), None];
    for width in 0..9 {
        assert_eq!(read_squares(&write_squares(&squares, width)), squares);
    }
}
