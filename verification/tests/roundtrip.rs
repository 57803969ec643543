use matrix_market::reader::{
    read_header, MatrixArrayReader, MatrixCoordinateReader, MatrixReader, MtxReader, ParamatrizedMatrixArrayReader,
    TextLines,
};
use matrix_market::writer::MatrixWriter;
use matrix_market::{Error, Field, FieldKind, FieldVal, Pattern, Position, Symmetry};
use num_complex::Complex;

#[derive(Clone, Copy, Debug, PartialEq)]
struct Real(f64);

impl Field for Real {
    fn read(tokens: &[Vec<u8>]) -> Result<Real, Error> {
        let t = tokens.first().ok_or(Error::InsufficientContent)?;
        let s = std::str::from_utf8(t).map_err(|_| Error::FloatError)?;
        s.parse::<f64>().map(Real).map_err(|_| Error::FloatError)
    }
    fn write(&self) -> Vec<u8> {
        format!("{:e}", self.0).into_bytes()
    }
    fn inverse(&self) -> Real {
        Real(-self.0)
    }
    fn conjugate(&self) -> Real {
        *self
    }
    fn zero() -> Real {
        Real(0.0)
    }
    fn kind() -> FieldKind {
        FieldKind::Real
    }
}

#[derive(Clone, Copy, Debug, PartialEq)]
struct Cplx(Complex<f64>);

fn parse_float(t: Option<&Vec<u8>>) -> Result<f64, Error> {
    let t = t.ok_or(Error::InsufficientContent)?;
    let s = std::str::from_utf8(t).map_err(|_| Error::FloatError)?;
    s.parse::<f64>().map_err(|_| Error::FloatError)
}

impl Field for Cplx {
    fn read(tokens: &[Vec<u8>]) -> Result<Cplx, Error> {
        let re = parse_float(tokens.first())?;
        let im = parse_float(tokens.get(1))?;
        Ok(Cplx(Complex { re, im }))
    }
    fn write(&self) -> Vec<u8> {
        format!("{:e} {:e}", self.0.re, self.0.im).into_bytes()
    }
    fn inverse(&self) -> Cplx {
        Cplx(-self.0)
    }
    fn conjugate(&self) -> Cplx {
        Cplx(self.0.conj())
    }
    fn zero() -> Cplx {
        Cplx(Complex { re: 0.0, im: 0.0 })
    }
    fn kind() -> FieldKind {
        FieldKind::Complex
    }
}

type Reader = MtxReader<Real, Cplx>;

fn reader_of(bytes: &[u8]) -> Result<Reader, Error> {
    Reader::new_reader(TextLines::of_text(bytes))
}

/// the columns of a dense matrix, put back row by row
fn rows_of<T: Field>(mut r: ParamatrizedMatrixArrayReader<T>, num_rows: usize, num_cols: usize, zero: T) -> Vec<Vec<T>> {
    let mut m = vec![vec![zero; num_cols]; num_rows];
    let mut col_idx = 0;
    while let Some(column) = r.next() {
        let mut column = column.unwrap();
        let mut row_idx = 0;
        while let Some(field) = column.next() {
            m[row_idx][col_idx] = field;
            row_idx += 1;
        }
        col_idx += 1;
    }
    m
}

fn integer_array(reader: Reader) -> ParamatrizedMatrixArrayReader<i64> {
    let MtxReader::Matrix(MatrixReader::MatrixArray(MatrixArrayReader::Integer(r))) = reader else {
        panic!("Incorrect kind of reader")
    };
    r
}

#[test]
fn matrix_array_write_test() {
    let matrix: Vec<Vec<i64>> = vec![vec![1, 2, 3, 4], vec![5, 6, 7, 8], vec![9, 10, 11, 12]];

    let mut buf = Vec::new();
    let writer = MatrixWriter::new(matrix.len(), matrix[0].len());
    writer.write_array(&mut buf, &matrix).unwrap();

    println!("As file:\n{}", String::from_utf8(buf.clone()).unwrap());

    let reader = reader_of(&buf).unwrap();
    let processed_matrix = rows_of(integer_array(reader), 3, 4, 0);

    assert_eq!(matrix, processed_matrix);
}

#[test]
fn matrix_array_read_test() {
    let mtx_text = "\
        %%MatrixMarket matrix array integer general\n\
        % A 4x3 dense matrix\n\
        4 3\n\
        1\n\
        2\n\
        3\n\
        4\n\
        5\n\
        6\n\
        7\n\
        8\n\
        9\n\
        10\n\
        11\n\
        12";

    let matrix: Vec<Vec<i64>> = vec![vec![1, 5, 9], vec![2, 6, 10], vec![3, 7, 11], vec![4, 8, 12]];

    let reader = reader_of(mtx_text.as_bytes()).unwrap();
    let processed_matrix = rows_of(integer_array(reader), 4, 3, 0);

    assert_eq!(matrix, processed_matrix);
}

#[test]
fn matrix_array_symmetric_write_test() {
    let matrix: Vec<Vec<i64>> = vec![
        vec![1, 2, 3, 4],
        vec![2, 5, 6, 7],
        vec![3, 6, 8, 9],
        vec![4, 7, 9, 0],
    ];

    let mut buf = Vec::new();
    let mut writer = MatrixWriter::new(matrix.len(), matrix[0].len());
    writer.add_symmetry(Symmetry::Symmetric).unwrap();
    writer.write_array(&mut buf, &matrix).unwrap();

    println!("As file:\n{}", String::from_utf8(buf.clone()).unwrap());

    let reader = reader_of(&buf).unwrap();
    let processed_matrix = rows_of(integer_array(reader), 4, 4, 0);

    assert_eq!(matrix, processed_matrix);
}

#[test]
fn matrix_array_skew_symmetric_write_test() {
    let matrix: Vec<Vec<i64>> = vec![
        vec![0, -1, -2, -3],
        vec![1, 0, -4, -5],
        vec![2, 4, 0, -6],
        vec![3, 5, 6, 0],
    ];

    let mut buf = Vec::new();
    let mut writer = MatrixWriter::new(matrix.len(), matrix[0].len());
    writer.add_symmetry(Symmetry::SkewSymmetric).unwrap();
    writer.write_array(&mut buf, &matrix).unwrap();

    println!("As file:\n{}", String::from_utf8(buf.clone()).unwrap());

    let reader = reader_of(&buf).unwrap();
    let processed_matrix = rows_of(integer_array(reader), 4, 4, 0);

    assert_eq!(matrix, processed_matrix);
}

fn c(re: f64, im: f64) -> Cplx {
    Cplx(Complex { re, im })
}

#[test]
fn matrix_array_hermitian_write_test() {
    let matrix = vec![
        vec![c(1.0, 0.0), c(2.0, -1.0), c(3.0, -2.0), c(4.0, -3.0)],
        vec![c(2.0, 1.0), c(5.0, 0.0), c(6.0, -4.0), c(7.0, -5.0)],
        vec![c(3.0, 2.0), c(6.0, 4.0), c(8.0, 0.0), c(9.0, -6.0)],
        vec![c(4.0, 3.0), c(7.0, 5.0), c(9.0, 6.0), c(0.0, 0.0)],
    ];

    let mut buf = Vec::new();
    let mut writer = MatrixWriter::new(matrix.len(), matrix[0].len());
    writer.add_symmetry(Symmetry::Hermitian).unwrap();
    writer.write_array(&mut buf, &matrix).unwrap();

    println!("As file:\n{}", String::from_utf8(buf.clone()).unwrap());

    let reader = reader_of(&buf).unwrap();
    let MtxReader::Matrix(MatrixReader::MatrixArray(MatrixArrayReader::Complex(matrix_array_reader))) = reader else {
        panic!("Incorrect kind of reader")
    };
    let processed_matrix = rows_of(matrix_array_reader, 4, 4, c(0.0, 0.0));

    assert_eq!(matrix, processed_matrix);
}

#[test]
fn real_array_roundtrip() {
    let matrix = vec![vec![Real(1.5), Real(2.0)], vec![Real(-3.0), Real(4.25)]];
    let mut buf = Vec::new();
    MatrixWriter::new(2, 2).write_array(&mut buf, &matrix).unwrap();
    let MtxReader::Matrix(MatrixReader::MatrixArray(MatrixArrayReader::Real(r))) = reader_of(&buf).unwrap() else {
        panic!("Incorrect kind of reader")
    };
    assert_eq!(rows_of(r, 2, 2, Real(0.0)), matrix);
}

/// the entries that a sparse matrix reader gives, in order, until the end
fn entries_of(mut r: MatrixCoordinateReader<Real, Cplx>) -> Vec<(Position, FieldVal<Real, Cplx>)> {
    let mut out = Vec::new();
    while let Some(e) = r.next() {
        out.push(e.unwrap());
    }
    out
}

fn integer_entries(es: Vec<(Position, FieldVal<Real, Cplx>)>) -> Vec<(usize, usize, i64)> {
    es.into_iter()
        .map(|(p, v)| match v {
            FieldVal::Integer(i) => (p.row, p.col, i),
            _ => panic!("Incorrect kind of field"),
        })
        .collect()
}

fn coordinate_reader(reader: Reader) -> MatrixCoordinateReader<Real, Cplx> {
    reader.matrix().unwrap().coordinate().unwrap()
}

#[test]
fn readme_coordinate_example() {
    let mtx_text = "\
    %%MatrixMarket matrix coordinate integer general\n\
    % A 4x4 Sparse matrix\n\
    4 4 7\n\
    1 1 1\n\
    3 3 2\n\
    2 2 3\n\
    4 4 4\n\
    3 2 5\n\
    1 3 6\n\
    2 4 7";
    let reader = reader_of(mtx_text.as_bytes()).unwrap();
    let MatrixCoordinateReader::Integer(_) = coordinate_reader(reader_of(mtx_text.as_bytes()).unwrap()) else {
        panic!("Incorrect kind of reader")
    };
    let mut matrix = vec![vec![0; 4]; 4];
    for (Position { row, col }, field) in entries_of(coordinate_reader(reader)) {
        let FieldVal::Integer(v) = field else { panic!("Incorrect kind of field") };
        matrix[row][col] = v;
    }
    assert_eq!(matrix, vec![vec![1, 0, 6, 0], vec![0, 3, 0, 7], vec![0, 5, 2, 0], vec![0, 0, 0, 4]]);
}

#[test]
fn coordinate_general_roundtrip() {
    let coords: Vec<(Position, i64)> = vec![
        (Position { row: 0, col: 0 }, 5),
        (Position { row: 2, col: 1 }, -7),
        (Position { row: 1, col: 3 }, 12),
    ];
    let mut buf = Vec::new();
    MatrixWriter::new(3, 4).write_coordinate(&mut buf, &coords, 3).unwrap();
    let es = integer_entries(entries_of(coordinate_reader(reader_of(&buf).unwrap())));
    assert_eq!(es, vec![(0, 0, 5), (2, 1, -7), (1, 3, 12)]);
}

#[test]
fn coordinate_symmetric_roundtrip_mirrors_entries() {
    let coords: Vec<(Position, i64)> = vec![
        (Position { row: 1, col: 0 }, 4),
        (Position { row: 2, col: 2 }, 9),
    ];
    let mut buf = Vec::new();
    let mut w = MatrixWriter::new(3, 3);
    w.add_symmetry(Symmetry::Symmetric).unwrap();
    w.write_coordinate(&mut buf, &coords, 2).unwrap();
    let es = integer_entries(entries_of(coordinate_reader(reader_of(&buf).unwrap())));
    assert_eq!(es, vec![(1, 0, 4), (0, 1, 4), (2, 2, 9)]);
}

#[test]
fn coordinate_skew_symmetric_roundtrip_inverts_mirror() {
    let coords: Vec<(Position, i64)> = vec![(Position { row: 2, col: 0 }, 3), (Position { row: 1, col: 1 }, 6)];
    let mut buf = Vec::new();
    let mut w = MatrixWriter::new(3, 3);
    w.add_symmetry(Symmetry::SkewSymmetric).unwrap();
    w.write_coordinate(&mut buf, &coords, 2).unwrap();
    let es = integer_entries(entries_of(coordinate_reader(reader_of(&buf).unwrap())));
    // no correction for values on the diagonal
    assert_eq!(es, vec![(2, 0, 3), (0, 2, -3), (1, 1, 6)]);
}

#[test]
fn coordinate_hermitian_roundtrip_conjugates_mirror() {
    let coords = vec![(Position { row: 1, col: 0 }, c(1.0, 2.0))];
    let mut buf = Vec::new();
    let mut w = MatrixWriter::new(2, 2);
    w.add_symmetry(Symmetry::Hermitian).unwrap();
    w.write_coordinate(&mut buf, &coords, 1).unwrap();
    let es = entries_of(coordinate_reader(reader_of(&buf).unwrap()));
    assert_eq!(es.len(), 2);
    match (&es[0], &es[1]) {
        ((p0, FieldVal::Complex(v0)), (p1, FieldVal::Complex(v1))) => {
            assert_eq!(*p0, Position { row: 1, col: 0 });
            assert_eq!(*v0, c(1.0, 2.0));
            assert_eq!(*p1, Position { row: 0, col: 1 });
            assert_eq!(*v1, c(1.0, -2.0));
        }
        _ => panic!("Incorrect kind of field"),
    }
}

#[test]
fn coordinate_pattern_roundtrip() {
    let coords = vec![(Position { row: 0, col: 1 }, Pattern { is_non_zero: true })];
    let mut buf = Vec::new();
    let mut w = MatrixWriter::new(2, 2);
    w.add_symmetry(Symmetry::Symmetric).unwrap();
    w.write_coordinate(&mut buf, &coords, 1).unwrap();
    assert_eq!(
        String::from_utf8(buf.clone()).unwrap(),
        "%%MatrixMarket matrix coordinate pattern symmetric\n2 2 1\n1 2 \n"
    );
    let es = entries_of(coordinate_reader(reader_of(&buf).unwrap()));
    assert_eq!(es.len(), 2);
    for (i, (p, v)) in es.iter().enumerate() {
        let FieldVal::Pattern(v) = v else { panic!("Incorrect kind of field") };
        assert!(v.is_non_zero);
        let expected = if i == 0 { Position { row: 0, col: 1 } } else { Position { row: 1, col: 0 } };
        assert_eq!(*p, expected);
    }
}

#[test]
fn integer_extremes_roundtrip() {
    let matrix: Vec<Vec<i64>> = vec![vec![i64::MIN, i64::MAX, 0, -1]];
    let mut buf = Vec::new();
    MatrixWriter::new(1, 4).write_array(&mut buf, &matrix).unwrap();
    let processed = rows_of(integer_array(reader_of(&buf).unwrap()), 1, 4, 0);
    assert_eq!(processed, matrix);
}

#[test]
fn array_reader_gives_none_after_the_last_column() {
    let matrix: Vec<Vec<i64>> = vec![vec![1, 2], vec![3, 4]];
    let mut buf = Vec::new();
    MatrixWriter::new(2, 2).write_array(&mut buf, &matrix).unwrap();
    let mut r = integer_array(reader_of(&buf).unwrap());
    assert!(r.next().is_some());
    assert!(r.next().is_some());
    assert!(r.next().is_none());
    assert!(r.next().is_none());
}

#[test]
fn header_is_read_in_any_case() {
    let upper = "%%MATRIXMARKET MATRIX ARRAY REAL SKEW-SYMMETRIC\n%% COMMENT\n2 2\n1\n";
    let lower = upper.to_ascii_lowercase();
    let mut a = TextLines::of_text(upper.as_bytes());
    let mut b = TextLines::of_text(lower.as_bytes());
    let ha = read_header(&mut a).unwrap();
    assert_eq!(ha, read_header(&mut b).unwrap());
    assert_eq!(ha.symmetry, Symmetry::SkewSymmetric);
    assert_eq!(a.next_line(), b.next_line());
}

#[test]
fn written_text_is_ascii() {
    let m: Vec<Vec<i64>> = vec![vec![-1, 22], vec![333, -4444]];
    let mut w = MatrixWriter::new(2, 2);
    w.add_comment("plain comment").unwrap();
    let mut out = Vec::new();
    w.write_array(&mut out, &m).unwrap();
    assert!(out.iter().all(|b| b.is_ascii()));
    let coords = vec![(Position { row: 1, col: 0 }, c(0.5, -2.0))];
    let mut out = Vec::new();
    MatrixWriter::new(2, 2).write_coordinate(&mut out, &coords, 1).unwrap();
    assert!(out.iter().all(|b| b.is_ascii()));
}

#[test]
fn columns_have_the_matrix_height() {
    let text = "%%MatrixMarket matrix array integer hermitian\n3 3\n";
    // integers cannot be hermitian
    assert!(matches!(reader_of(text.as_bytes()), Err(Error::UnsupportedHeaderOptions)));
    let text = "%%MatrixMarket matrix array integer symmetric\n3 3\n1\n2\n3\n4\n5\n6\n";
    let mut r = integer_array(reader_of(text.as_bytes()).unwrap());
    let mut heights = Vec::new();
    while let Some(col) = r.next() {
        let mut col = col.unwrap();
        let mut n = 0;
        while col.next().is_some() {
            n += 1;
        }
        heights.push(n);
    }
    assert_eq!(heights, vec![3, 3, 3]);
}

#[test]
fn accepted_headers_are_consistent() {
    for text in [
        "%%MatrixMarket matrix coordinate pattern symmetric\n4 4 2\n",
        "%%MatrixMarket matrix array complex hermitian\n2 2\n",
        "%%MatrixMarket matrix array real general\n2 5\n",
    ] {
        let h = read_header(&mut TextLines::of_text(text.as_bytes())).unwrap();
        if h.symmetry != Symmetry::General {
            assert_eq!(h.num_rows, h.num_cols);
        }
        assert!(h.field != FieldKind::Pattern || h.symmetry == Symmetry::General || h.symmetry == Symmetry::Symmetric);
    }
}

fn integer_columns(text: &str) -> Result<Vec<Vec<i64>>, Error> {
    let mut r = integer_array(reader_of(text.as_bytes())?);
    let mut cols = Vec::new();
    while let Some(col) = r.next() {
        let mut col = col?;
        let mut v = Vec::new();
        while let Some(x) = col.next() {
            v.push(x);
        }
        cols.push(v);
    }
    Ok(cols)
}

#[test]
fn comment_lines_after_the_header_are_ignored() {
    let plain = "%%MatrixMarket matrix array integer symmetric\n2 2\n1\n2\n3\n";
    let commented = "%%MatrixMarket matrix array integer symmetric\n% one\n%\n%% two\n2 2\n1\n2\n3\n";
    assert_eq!(integer_columns(plain).unwrap(), integer_columns(commented).unwrap());
    assert_eq!(integer_columns(plain).unwrap(), vec![vec![1, 2], vec![2, 3]]);
}

#[test]
fn the_case_of_the_header_line_does_not_matter() {
    let a = "%%MatrixMarket matrix array integer general\n2 1\n5\n6\n";
    let b = "%%MATRIXMARKET Matrix ARRAY Integer GENERAL\n2 1\n5\n6\n";
    assert_eq!(integer_columns(a).unwrap(), integer_columns(b).unwrap());
}

#[test]
fn headers_accepted_exactly() {
    assert!(reader_of(b"%%MatrixMarket matrix array complex hermitian\n3 3\n").is_ok());
    assert!(matches!(reader_of(b"%%MatrixMarket matrix array complex hermitian\n3 2\n"), Err(Error::NotSquare)));
    assert!(matches!(
        reader_of(b"%%MatrixMarket matrix array real hermitian\n3 3\n"),
        Err(Error::UnsupportedHeaderOptions)
    ));
    assert!(reader_of(b"%%MatrixMarket matrix coordinate pattern symmetric\n3 3 0\n").is_ok());
    assert!(matches!(
        reader_of(b"%%MatrixMarket matrix coordinate pattern hermitian\n3 3 0\n"),
        Err(Error::UnsupportedHeaderOptions)
    ));
}
