use matrix_market::reader::{
    read_header, Header, MatrixArrayReader, MatrixCoordinateReader, MatrixFormat, MatrixReader, MtxReader,
    TextLines,
};
use matrix_market::text::{split_lines, IntErrorKind};
use matrix_market::{Error, FieldKind, FieldVal, Pattern, Position, Symmetry};

type Reader = MtxReader<i64, Pattern>;

/// the lines of a text, then a line that cannot be read
fn failing_after(text: &[u8]) -> TextLines {
    let mut ls: Vec<Option<Vec<u8>>> = split_lines(text).into_iter().map(Some).collect();
    ls.push(None);
    TextLines::new(ls)
}

fn lines(text: &str) -> TextLines {
    TextLines::of_text(text.as_bytes())
}

fn header_of(text: &str) -> Result<Header, Error> {
    read_header(&mut lines(text))
}

fn reader_err(text: &str) -> Error {
    match Reader::new_reader(lines(text)) {
        Ok(_) => panic!("expected an error"),
        Err(e) => e,
    }
}

#[test]
fn header_of_an_array_file() {
    let h = header_of("%%MatrixMarket matrix array integer general\n% a comment\n3 4\n1\n").unwrap();
    assert_eq!(
        h,
        Header {
            format: MatrixFormat::Array,
            field: FieldKind::Integer,
            symmetry: Symmetry::General,
            num_rows: 3,
            num_cols: 4,
            num_entries: 0,
        }
    );
}

#[test]
fn header_of_a_coordinate_file_in_upper_case_with_crlf() {
    let h = header_of("%%MATRIXMARKET Matrix COORDINATE Complex Hermitian\r\n%\r\n%another\r\n5 5 7\r\n").unwrap();
    assert_eq!(
        h,
        Header {
            format: MatrixFormat::Coordinate,
            field: FieldKind::Complex,
            symmetry: Symmetry::Hermitian,
            num_rows: 5,
            num_cols: 5,
            num_entries: 7,
        }
    );
}

#[test]
fn header_leaves_the_lines_at_the_first_entry() {
    let mut l = lines("%%MatrixMarket matrix array integer general\n%c\n2 1\n7\n8\n");
    read_header(&mut l).unwrap();
    assert_eq!(l.next_line(), Some(Ok(b"7".to_vec())));
    assert_eq!(l.next_line(), Some(Ok(b"8".to_vec())));
    assert_eq!(l.next_line(), None);
}

#[test]
fn extra_qualifiers_and_content_numbers_are_ignored() {
    let h = header_of("%%MatrixMarket matrix array real symmetric extra\n2 2 99\n").unwrap();
    assert_eq!(h.field, FieldKind::Real);
    assert_eq!(h.symmetry, Symmetry::Symmetric);
    assert_eq!(h.num_entries, 0);
}

#[test]
fn no_header() {
    assert_eq!(reader_err(""), Error::NoHeader);
}

#[test]
fn io_error_on_the_header_line() {
    let r = Reader::new_reader(TextLines::new(vec![None]));
    assert!(matches!(r, Err(Error::IoError)));
}

#[test]
fn io_error_after_the_comments() {
    let l = failing_after(b"%%MatrixMarket matrix array integer general\n%c\n");
    assert!(matches!(Reader::new_reader(l), Err(Error::IoError)));
}

#[test]
fn malformed_header() {
    assert_eq!(reader_err("%MatrixMarket matrix array integer general\n1 1\n1\n"), Error::MalformedHeader);
    assert_eq!(reader_err("%%MatrixMarket matrix\n1 1\n1\n"), Error::MalformedHeader);
    assert_eq!(reader_err("   \n1 1\n"), Error::MalformedHeader);
    // the field and symmetry are missing
    assert_eq!(reader_err("%%MatrixMarket matrix array\n1 1\n1\n"), Error::MalformedHeader);
}

#[test]
fn unsupported_header_options() {
    assert_eq!(reader_err("%%MatrixMarket vector array integer general\n1 1\n"), Error::UnsupportedHeaderOptions);
    assert_eq!(reader_err("%%MatrixMarket matrix dense integer general\n1 1\n"), Error::UnsupportedHeaderOptions);
    assert_eq!(reader_err("%%MatrixMarket matrix array pattern general\n1 1\n"), Error::UnsupportedHeaderOptions);
    assert_eq!(
        reader_err("%%MatrixMarket matrix coordinate integer hermitian\n2 2 0\n"),
        Error::UnsupportedHeaderOptions
    );
    assert_eq!(
        reader_err("%%MatrixMarket matrix coordinate pattern skew-symmetric\n2 2 0\n"),
        Error::UnsupportedHeaderOptions
    );
    assert_eq!(reader_err("%%MatrixMarket matrix array integer diagonal\n2 2\n"), Error::UnsupportedHeaderOptions);
    assert_eq!(reader_err("%%MatrixMarket matrix array quaternion general\n2 2\n"), Error::UnsupportedHeaderOptions);
}

#[test]
fn insufficient_content_after_the_header() {
    assert_eq!(reader_err("%%MatrixMarket matrix array integer general\n% only comments\n"), Error::InsufficientContent);
}

#[test]
fn malformed_content_header() {
    assert_eq!(reader_err("%%MatrixMarket matrix array integer general\n\n"), Error::MalformerContentHeader);
    assert_eq!(reader_err("%%MatrixMarket matrix array integer general\n4\n"), Error::MalformerContentHeader);
    assert_eq!(reader_err("%%MatrixMarket matrix coordinate integer general\n4 4\n"), Error::MalformerContentHeader);
}

#[test]
fn int_errors_in_the_content_header() {
    assert_eq!(
        reader_err("%%MatrixMarket matrix array integer general\n4 x\n"),
        Error::IntError(IntErrorKind::InvalidDigit)
    );
    assert_eq!(
        reader_err("%%MatrixMarket matrix array integer general\n-4 4\n"),
        Error::IntError(IntErrorKind::InvalidDigit)
    );
    assert_eq!(
        reader_err("%%MatrixMarket matrix array integer general\n99999999999999999999999 1\n"),
        Error::IntError(IntErrorKind::PosOverflow)
    );
    assert_eq!(
        reader_err("%%MatrixMarket matrix coordinate integer general\n4 4 +\n"),
        Error::IntError(IntErrorKind::InvalidDigit)
    );
}

#[test]
fn not_square() {
    assert_eq!(reader_err("%%MatrixMarket matrix array integer symmetric\n3 4\n"), Error::NotSquare);
    assert_eq!(reader_err("%%MatrixMarket matrix coordinate complex hermitian\n3 4 0\n"), Error::NotSquare);
}

fn integer_array(text: &str) -> matrix_market::reader::ParamatrizedMatrixArrayReader<i64> {
    match Reader::new_reader(lines(text)).unwrap() {
        MtxReader::Matrix(MatrixReader::MatrixArray(MatrixArrayReader::Integer(r))) => r,
        _ => panic!("Incorrect kind of reader"),
    }
}

fn coordinates(text: &str) -> MatrixCoordinateReader<i64, Pattern> {
    Reader::new_reader(lines(text)).unwrap().matrix().unwrap().coordinate().unwrap()
}

#[test]
fn array_with_too_few_entries() {
    let mut r = integer_array("%%MatrixMarket matrix array integer general\n2 2\n1\n2\n3\n");
    assert_eq!(r.next().unwrap().ok().map(|mut c| (c.next(), c.next(), c.next())), Some((Some(1), Some(2), None)));
    assert!(matches!(r.next(), Some(Err(Error::InsufficientContent))));
    assert!(r.next().is_none());
}

#[test]
fn array_entry_that_is_not_an_integer() {
    let mut r = integer_array("%%MatrixMarket matrix array integer general\n1 2\nabc\n4\n");
    assert!(matches!(r.next(), Some(Err(Error::IntError(IntErrorKind::InvalidDigit)))));
    // the failing line was consumed
    let mut c = r.next().unwrap().ok().unwrap();
    assert_eq!(c.next(), Some(4));
    assert_eq!(c.next(), None);
}

#[test]
fn array_entry_line_that_is_empty() {
    let mut r = integer_array("%%MatrixMarket matrix array integer general\n1 1\n\n");
    assert!(matches!(r.next(), Some(Err(Error::InsufficientContent))));
}

#[test]
fn io_error_among_the_entries() {
    let l = failing_after(b"%%MatrixMarket matrix array integer general\n2 1\n1\n");
    let mut r = match Reader::new_reader(l).unwrap() {
        MtxReader::Matrix(MatrixReader::MatrixArray(MatrixArrayReader::Integer(r))) => r,
        _ => panic!("Incorrect kind of reader"),
    };
    assert!(matches!(r.next(), Some(Err(Error::IoError))));
}

#[test]
fn symmetric_array_with_too_few_entries() {
    let mut r = integer_array("%%MatrixMarket matrix array integer symmetric\n3 3\n1\n2\n");
    assert!(matches!(r.next(), Some(Err(Error::InsufficientContent))));
    let mut r = integer_array("%%MatrixMarket matrix array integer symmetric\n2 2\n1");
    assert!(matches!(r.next(), Some(Err(Error::InsufficientContent))));
}

#[test]
fn skew_symmetric_array_with_too_few_entries() {
    let mut r = integer_array("%%MatrixMarket matrix array integer skew-symmetric\n3 3\n1");
    assert!(matches!(r.next(), Some(Err(Error::InsufficientContent))));
}

#[test]
fn symmetric_array_without_a_diagonal_entry() {
    let mut r = integer_array("%%MatrixMarket matrix array integer symmetric\n1 1\n");
    assert!(matches!(r.next(), Some(Err(Error::InsufficientContent))));
    assert!(r.next().is_none());
}

#[test]
fn skew_symmetric_array_fills_the_diagonal_with_zeros() {
    let mut r = integer_array("%%MatrixMarket matrix array integer skew-symmetric\n3 3\n1\n2\n3\n");
    let mut col = |r: &mut matrix_market::reader::ParamatrizedMatrixArrayReader<i64>| {
        let mut c = r.next().unwrap().ok().unwrap();
        let mut v = Vec::new();
        while let Some(x) = c.next() {
            v.push(x);
        }
        v
    };
    assert_eq!(col(&mut r), vec![0, 1, 2]);
    assert_eq!(col(&mut r), vec![-1, 0, 3]);
    assert_eq!(col(&mut r), vec![-2, -3, 0]);
    assert!(r.next().is_none());
}

#[test]
fn coordinate_index_out_of_the_matrix() {
    let text = "%%MatrixMarket matrix coordinate integer general\n2 3 4\n3 1 5\n1 4 5\n0 1 5\n2 3 6\n";
    let mut r = coordinates(text);
    assert!(matches!(r.next(), Some(Err(Error::MalformedContent))));
    assert!(matches!(r.next(), Some(Err(Error::MalformedContent))));
    assert!(matches!(r.next(), Some(Err(Error::MalformedContent))));
    match r.next() {
        Some(Ok((p, FieldVal::Integer(v)))) => {
            assert_eq!(p, Position { row: 1, col: 2 });
            assert_eq!(v, 6);
        }
        _ => panic!("expected an entry"),
    }
    assert!(r.next().is_none());
}

#[test]
fn coordinate_lines_too_short_or_too_few() {
    let text = "%%MatrixMarket matrix coordinate integer general\n2 2 4\n1\n1 x 3\n1 1\n";
    let mut r = coordinates(text);
    assert!(matches!(r.next(), Some(Err(Error::InsufficientContent))));
    assert!(matches!(r.next(), Some(Err(Error::IntError(IntErrorKind::InvalidDigit)))));
    assert!(matches!(r.next(), Some(Err(Error::InsufficientContent))));
    assert!(matches!(r.next(), Some(Err(Error::InsufficientContent))));
    assert!(r.next().is_none());
}

#[test]
fn pattern_coordinates_need_no_value() {
    let text = "%%MatrixMarket matrix coordinate pattern general\n2 2 1\n2 1\n";
    let mut r = coordinates(text);
    match r.next() {
        Some(Ok((p, FieldVal::Pattern(v)))) => {
            assert_eq!(p, Position { row: 1, col: 0 });
            assert!(v.is_non_zero);
        }
        _ => panic!("expected an entry"),
    }
    assert!(r.next().is_none());
}

#[test]
fn reader_kind_queries() {
    let text = "%%MatrixMarket matrix coordinate integer general\n1 1 0\n";
    let r = Reader::new_reader(lines(text)).unwrap();
    assert!(r.is_matrix());
    let m = r.matrix().unwrap();
    assert!(m.is_coordinate());
    assert!(!m.is_array());
    assert!(m.array().is_none());
    let a = Reader::new_reader(lines("%%MatrixMarket matrix array integer general\n1 1\n1\n")).unwrap();
    let m = a.matrix().unwrap();
    assert!(m.is_array());
    assert!(m.coordinate().is_none());
}

#[test]
fn a_line_that_cannot_be_read_is_passed_and_reading_goes_on() {
    let mut ls: Vec<Option<Vec<u8>>> = split_lines(b"%%MatrixMarket matrix array integer general\n3 1\n1\n")
        .into_iter()
        .map(Some)
        .collect();
    ls.push(None);
    ls.push(Some(b"3".to_vec()));
    let mut r = match Reader::new_reader(TextLines::new(ls)).unwrap() {
        MtxReader::Matrix(MatrixReader::MatrixArray(MatrixArrayReader::Integer(r))) => r,
        _ => panic!("Incorrect kind of reader"),
    };
    assert!(matches!(r.next(), Some(Err(Error::IoError))));
    assert!(r.next().is_none());
    let mut ls: Vec<Option<Vec<u8>>> = split_lines(b"%%MatrixMarket matrix coordinate integer general\n2 2 3\n1 1 4\n")
        .into_iter()
        .map(Some)
        .collect();
    ls.push(None);
    ls.push(Some(b"2 2 5".to_vec()));
    let mut c = Reader::new_reader(TextLines::new(ls)).unwrap().matrix().unwrap().coordinate().unwrap();
    assert!(matches!(c.next(), Some(Ok((_, FieldVal::Integer(4))))));
    assert!(matches!(c.next(), Some(Err(Error::IoError))));
    assert!(matches!(c.next(), Some(Ok((Position { row: 1, col: 1 }, FieldVal::Integer(5))))));
    assert!(c.next().is_none());
}

#[test]
fn a_failed_line_among_the_comments() {
    let ls = vec![Some(b"%%MatrixMarket matrix array integer general".to_vec()), Some(b"%c".to_vec()), None, Some(b"1 1".to_vec())];
    assert!(matches!(Reader::new_reader(TextLines::new(ls)), Err(Error::IoError)));
}
