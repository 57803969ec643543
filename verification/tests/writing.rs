use matrix_market::reader::{is_supported, MatrixFormat};
use matrix_market::text::IntErrorKind;
use matrix_market::writer::{written_positions, MatrixWriter};
use matrix_market::{Error, FieldKind, Pattern, Position, Symmetry};

fn text(b: &[u8]) -> String {
    String::from_utf8(b.to_vec()).unwrap()
}

#[test]
fn write_array_general_column_by_column() {
    let m: Vec<Vec<i64>> = vec![vec![1, 2, 3], vec![4, 5, 6]];
    let mut out = Vec::new();
    MatrixWriter::new(2, 3).write_array(&mut out, &m).unwrap();
    assert_eq!(text(&out), "%%MatrixMarket matrix array integer general\n2 3\n1\n4\n2\n5\n3\n6\n");
}

#[test]
fn write_array_symmetric_writes_the_lower_triangle() {
    let m: Vec<Vec<i64>> = vec![vec![1, 2, 3], vec![2, 4, 5], vec![3, 5, 6]];
    let mut out = Vec::new();
    let mut w = MatrixWriter::new(3, 3);
    w.add_symmetry(Symmetry::Symmetric).unwrap();
    w.write_array(&mut out, &m).unwrap();
    assert_eq!(text(&out), "%%MatrixMarket matrix array integer symmetric\n3 3\n1\n2\n3\n4\n5\n6\n");
}

#[test]
fn write_array_skew_symmetric_writes_below_the_diagonal() {
    let m: Vec<Vec<i64>> = vec![vec![0, -1, -2], vec![1, 0, -3], vec![2, 3, 0]];
    let mut out = Vec::new();
    let mut w = MatrixWriter::new(3, 3);
    w.add_symmetry(Symmetry::SkewSymmetric).unwrap();
    w.write_array(&mut out, &m).unwrap();
    assert_eq!(text(&out), "%%MatrixMarket matrix array integer skew-symmetric\n3 3\n1\n2\n3\n");
}

#[test]
fn write_array_appends_to_the_output() {
    let m: Vec<Vec<i64>> = vec![vec![7]];
    let mut out = b"xy".to_vec();
    MatrixWriter::new(1, 1).write_array(&mut out, &m).unwrap();
    assert_eq!(text(&out), "xy%%MatrixMarket matrix array integer general\n1 1\n7\n");
}

#[test]
fn write_array_of_an_empty_matrix() {
    let m: Vec<Vec<i64>> = vec![];
    let mut out = Vec::new();
    MatrixWriter::new(0, 0).write_array(&mut out, &m).unwrap();
    assert_eq!(text(&out), "%%MatrixMarket matrix array integer general\n0 0\n");
}

#[test]
fn comments_follow_the_header_line() {
    let m: Vec<Vec<i64>> = vec![vec![-8]];
    let mut out = Vec::new();
    let mut w = MatrixWriter::new(1, 1);
    assert_eq!(w.add_comment("first line\nsecond"), Ok(()));
    assert_eq!(w.add_comment(" third"), Ok(()));
    w.write_array(&mut out, &m).unwrap();
    assert_eq!(
        text(&out),
        "%%MatrixMarket matrix array integer general\n%first line\n%second\n% third\n1 1\n-8\n"
    );
}

#[test]
fn comment_right_after_the_header_line() {
    let e: Vec<(Position, i64)> = vec![(Position { row: 0, col: 0 }, 7)];
    let mut buf = Vec::new();
    let mut w = MatrixWriter::new(1, 1);
    assert_eq!(w.add_comment(" hello"), Ok(()));
    w.write_coordinate(&mut buf, &e, 1).unwrap();
    assert_eq!(text(&buf), "%%MatrixMarket matrix coordinate integer general\n% hello\n1 1 1\n1 1 7\n");
}

#[test]
fn an_empty_comment_is_an_empty_line_and_a_final_line_feed_adds_none() {
    let m: Vec<Vec<i64>> = vec![vec![1]];
    let mut out = Vec::new();
    let mut w = MatrixWriter::new(1, 1);
    w.add_comment("").unwrap();
    w.add_comment("a\r\nb\n").unwrap();
    w.add_comment("c").unwrap();
    w.write_array(&mut out, &m).unwrap();
    assert_eq!(text(&out), "%%MatrixMarket matrix array integer general\n%\n%a\n%b\n%c\n1 1\n1\n");
}

#[test]
fn write_array_refuses_patterns() {
    let m = vec![vec![Pattern { is_non_zero: true }]];
    let mut out = Vec::new();
    assert_eq!(MatrixWriter::new(1, 1).write_array(&mut out, &m), Err(Error::UnsupportedHeaderOptions));
    assert!(out.is_empty());
}

#[test]
fn write_array_refuses_hermitian_integers() {
    let m: Vec<Vec<i64>> = vec![vec![1]];
    let mut out = Vec::new();
    let mut w = MatrixWriter::new(1, 1);
    w.add_symmetry(Symmetry::Hermitian).unwrap();
    assert_eq!(w.write_array(&mut out, &m), Err(Error::UnsupportedHeaderOptions));
    assert!(out.is_empty());
}

#[test]
fn add_symmetry_needs_a_square_matrix() {
    let mut w = MatrixWriter::new(2, 3);
    assert_eq!(w.add_symmetry(Symmetry::Symmetric), Err(Error::NotSquare));
    assert_eq!(w.add_symmetry(Symmetry::Hermitian), Err(Error::NotSquare));
    assert_eq!(w.add_symmetry(Symmetry::General), Ok(()));
    // the refused symmetry was not set
    let m: Vec<Vec<i64>> = vec![vec![1, 2, 3], vec![4, 5, 6]];
    let mut out = Vec::new();
    w.write_array(&mut out, &m).unwrap();
    assert!(text(&out).starts_with("%%MatrixMarket matrix array integer general\n2 3\n"));
}

#[test]
fn add_symmetry_can_be_overwritten() {
    let mut w = MatrixWriter::new(2, 2);
    w.add_symmetry(Symmetry::SkewSymmetric).unwrap();
    w.add_symmetry(Symmetry::Symmetric).unwrap();
    let m: Vec<Vec<i64>> = vec![vec![1, 2], vec![2, 3]];
    let mut out = Vec::new();
    w.write_array(&mut out, &m).unwrap();
    assert_eq!(text(&out), "%%MatrixMarket matrix array integer symmetric\n2 2\n1\n2\n3\n");
}

#[test]
fn write_coordinate_one_based() {
    let coords: Vec<(Position, i64)> = vec![(Position { row: 0, col: 2 }, 10), (Position { row: 3, col: 1 }, -4)];
    let mut out = Vec::new();
    MatrixWriter::new(4, 3).write_coordinate(&mut out, &coords, 2).unwrap();
    assert_eq!(text(&out), "%%MatrixMarket matrix coordinate integer general\n4 3 2\n1 3 10\n4 2 -4\n");
}

#[test]
fn write_coordinate_writes_only_the_entries_to_read() {
    let coords: Vec<(Position, i64)> = vec![(Position { row: 0, col: 0 }, 1), (Position { row: 1, col: 1 }, 2)];
    let mut out = Vec::new();
    MatrixWriter::new(2, 2).write_coordinate(&mut out, &coords, 1).unwrap();
    assert_eq!(text(&out), "%%MatrixMarket matrix coordinate integer general\n2 2 1\n1 1 1\n");
}

#[test]
fn write_coordinate_with_too_few_entries() {
    let coords: Vec<(Position, i64)> = vec![(Position { row: 0, col: 0 }, 1)];
    let mut out = Vec::new();
    assert_eq!(
        MatrixWriter::new(2, 2).write_coordinate(&mut out, &coords, 3),
        Err(Error::InsufficientContent)
    );
    assert_eq!(text(&out), "%%MatrixMarket matrix coordinate integer general\n2 2 3\n1 1 1\n");
}

#[test]
fn write_coordinate_refuses_unsupported_combinations() {
    let mut w = MatrixWriter::new(2, 2);
    w.add_symmetry(Symmetry::SkewSymmetric).unwrap();
    let coords = vec![(Position { row: 1, col: 0 }, Pattern { is_non_zero: true })];
    let mut out = Vec::new();
    assert_eq!(w.write_coordinate(&mut out, &coords, 1), Err(Error::UnsupportedHeaderOptions));
    assert!(out.is_empty());

    let mut w = MatrixWriter::new(2, 2);
    w.add_symmetry(Symmetry::Hermitian).unwrap();
    let coords: Vec<(Position, i64)> = vec![(Position { row: 1, col: 0 }, 3)];
    assert_eq!(w.write_coordinate(&mut out, &coords, 1), Err(Error::UnsupportedHeaderOptions));
    assert!(out.is_empty());
}

#[test]
fn names_in_the_header_line() {
    assert_eq!(FieldKind::Real.as_string(), "real");
    assert_eq!(FieldKind::Integer.as_string(), "integer");
    assert_eq!(FieldKind::Complex.as_string(), "complex");
    assert_eq!(FieldKind::Pattern.as_string(), "pattern");
    assert_eq!(Symmetry::General.as_string(), "general");
    assert_eq!(Symmetry::Symmetric.as_string(), "symmetric");
    assert_eq!(Symmetry::SkewSymmetric.as_string(), "skew-symmetric");
    assert_eq!(Symmetry::Hermitian.as_string(), "hermitian");
    assert_eq!(MatrixFormat::Array.as_string(), "array");
    assert_eq!(MatrixFormat::Coordinate.as_string(), "coordinate");
}

#[test]
fn written_positions_column_by_column() {
    let p = |row, col| Position { row, col };
    assert_eq!(written_positions(Symmetry::General, 2, 2), vec![p(0, 0), p(1, 0), p(0, 1), p(1, 1)]);
    assert_eq!(written_positions(Symmetry::Symmetric, 3, 3), vec![p(0, 0), p(1, 0), p(2, 0), p(1, 1), p(2, 1), p(2, 2)]);
    assert_eq!(written_positions(Symmetry::Hermitian, 2, 2), vec![p(0, 0), p(1, 0), p(1, 1)]);
    assert_eq!(written_positions(Symmetry::SkewSymmetric, 3, 3), vec![p(1, 0), p(2, 0), p(2, 1)]);
    assert!(written_positions(Symmetry::General, 0, 4).is_empty());
}

#[test]
fn the_writer_tells_its_symmetry() {
    let mut w = MatrixWriter::new(2, 2);
    assert_eq!(w.symmetry(), Symmetry::General);
    w.add_symmetry(Symmetry::Hermitian).unwrap();
    assert_eq!(w.symmetry(), Symmetry::Hermitian);
}

#[test]
fn supported_combinations() {
    assert!(is_supported(MatrixFormat::Array, FieldKind::Complex, Symmetry::Hermitian));
    assert!(!is_supported(MatrixFormat::Array, FieldKind::Integer, Symmetry::Hermitian));
    assert!(!is_supported(MatrixFormat::Array, FieldKind::Pattern, Symmetry::General));
    assert!(is_supported(MatrixFormat::Coordinate, FieldKind::Pattern, Symmetry::Symmetric));
    assert!(!is_supported(MatrixFormat::Coordinate, FieldKind::Pattern, Symmetry::SkewSymmetric));
}

#[test]
fn error_messages() {
    let m = |e: Error| String::from_utf8(e.message()).unwrap();
    assert_eq!(m(Error::NoHeader), "MTX Error: No Header");
    assert_eq!(m(Error::MalformerContentHeader), "MTX Error: Malformed Content Header");
    assert_eq!(m(Error::UnsupportedHeaderOptions), "MTX Error: Unsupported Header Options");
    assert_eq!(
        m(Error::IntError(IntErrorKind::InvalidDigit)),
        "MTX Error: Integer Error (invalid digit found in string)"
    );
    assert_eq!(
        m(Error::IntError(IntErrorKind::PosOverflow)),
        "MTX Error: Integer Error (number too large to fit in target type)"
    );
    assert_eq!(m(Error::IoError), "MTX Error: IO Error");
}
