use ls_ccsc::edit::apply_change;
use ls_ccsc::error::LsError;
use ls_ccsc::position::{Point, TextDocumentSource};

fn rows(from: usize, to: usize) -> Vec<usize> {
    (from..=to).collect()
}

#[test]
fn test_single_line() {
    let actual = TextDocumentSource::from("Hello, world!".to_string());
    assert_eq!(actual.get_raw(), "Hello, world!");
    assert_eq!(actual.get_positions(), vec![rows(0, 13)]);

    assert_eq!(Point::new(0, 0), actual.get_point_from_byte_idx(0).unwrap());
}

#[test]
fn test_new_line_at_end_of_line() {
    let actual = TextDocumentSource::from("Hello, world!\n".to_string());
    assert_eq!(actual.get_raw(), "Hello, world!\n");
    assert_eq!(actual.get_positions(), vec![rows(0, 13), vec![14]]);
}

#[test]
fn test_multiline() {
    let actual = TextDocumentSource::from("Hello, world!\nHow are you?\nUghhhh.....\n".to_string());
    assert_eq!(actual.get_raw(), "Hello, world!\nHow are you?\nUghhhh.....\n");
    assert_eq!(
        actual.get_positions(),
        vec![rows(0, 13), rows(14, 26), rows(27, 38), vec![39]]
    );
}

#[test]
fn test_prod() {
    let actual_content =
        TextDocumentSource::from("\nint add(int a, int b) {\n\treturn a + b;\n}".to_string());
    assert_eq!(
        actual_content.get_positions(),
        vec![vec![0], rows(1, 24), rows(25, 39), vec![40, 41]]
    );

    let start = Point::new(2, 14);
    let end = Point::new(2, 14);
    let start_inclusive = actual_content.get_offset_for_point(&start).unwrap();
    let end_inclusive = actual_content.get_offset_for_point(&end).unwrap();
    let new_string = apply_change(
        actual_content.get_raw().to_string(),
        "\n    ".into(),
        start_inclusive..end_inclusive,
    )
    .unwrap();
    let new_content = TextDocumentSource::from(new_string);

    assert_eq!(new_content.get_raw(), "\nint add(int a, int b) {\n\treturn a + b;\n    \n}");
    assert_eq!(
        new_content.get_positions(),
        vec![vec![0], rows(1, 24), rows(25, 39), rows(40, 44), vec![45, 46]]
    );

    assert_eq!(
        Point::new(3, 4),
        new_content.get_point_from_byte_idx(44).unwrap(),
    );
}

#[test]
fn single_line_mapping() {
    let s = TextDocumentSource::from("Hello, world!".to_string());
    assert_eq!(s.get_offset_for_point(&Point::new(0, 7)).unwrap(), 7);
    assert_eq!(s.get_point_from_byte_idx(12).unwrap(), Point::new(0, 12));
}

#[test]
fn multi_line_mapping() {
    let s = TextDocumentSource::from("Hello, world!\nHow are you?\nUghhhh.....\n".to_string());
    let firsts: Vec<usize> = s.get_positions().iter().map(|r| r[0]).collect();
    assert_eq!(firsts, vec![0, 14, 27, 39]);
    assert_eq!(s.get_offset_for_point(&Point::new(2, 6)).unwrap(), 33);
    assert_eq!(s.get_point_from_byte_idx(33).unwrap(), Point::new(2, 6));
}

#[test]
fn round_trip_on_every_point_and_boundary() {
    let text = "añb\n€x\n\nend";
    let s = TextDocumentSource::from(text.to_string());
    for (r, row) in s.get_positions().iter().enumerate() {
        for (c, &o) in row.iter().enumerate() {
            assert_eq!(s.get_offset_for_point(&Point::new(r, c)).unwrap(), o);
            assert_eq!(s.get_point_from_byte_idx(o).unwrap(), Point::new(r, c));
        }
    }
    for b in 0..=text.len() {
        if text.is_char_boundary(b) {
            let p = s.get_point_from_byte_idx(b).unwrap();
            assert_eq!(s.get_offset_for_point(&p).unwrap(), b);
        } else {
            assert_eq!(s.get_point_from_byte_idx(b), Err(LsError::PositionOutOfRange));
        }
    }
}

#[test]
fn past_the_end_clamps() {
    let s = TextDocumentSource::from("ab\ncd\n".to_string());
    let max = u32::MAX as usize;
    assert_eq!(s.get_offset_for_point(&Point::new(max, max)).unwrap(), 6);
    assert_eq!(s.get_offset_for_point(&Point::new(0, 99)).unwrap(), 2);
    assert_eq!(s.get_point_from_byte_idx(100).unwrap(), Point::new(2, 0));
}

#[test]
fn one_byte_text() {
    let s = TextDocumentSource::from("a".to_string());
    assert_eq!(s.row_count(), 1);
    assert_eq!(s.get_offset_for_point(&Point::new(0, 0)).unwrap(), 0);
    assert_eq!(s.get_offset_for_point(&Point::new(0, usize::MAX)).unwrap(), 1);
    assert_eq!(s.get_point_from_byte_idx(1).unwrap(), Point::new(0, 1));
}

#[test]
fn empty_text_has_one_row() {
    let s = TextDocumentSource::from(String::new());
    assert_eq!(s.get_positions(), vec![vec![0]]);
    assert_eq!(s.get_point_from_byte_idx(0).unwrap(), Point::new(0, 0));
}

#[test]
fn error_codes() {
    assert_eq!(LsError::InvalidUri.code(), 1);
    assert_eq!(LsError::NoSyntaxTree.code(), 3);
    assert_eq!(LsError::NotFound.code(), 4);
    assert_eq!(LsError::McpParse.code(), 5);
    assert_eq!(LsError::InvalidRange.code(), 6);
    assert_eq!(LsError::InvalidUtf8.code(), 6);
    assert_eq!(LsError::PositionOutOfRange.code(), 9);
}
