//! Reading matrix market files: the header, and the readers of the content.
use vstd::prelude::*;
use vstd::string::StringSliceAdditionalSpecFns;

use crate::text::{
    lowercase, tokens, views, parse_usize_spec, split_lines, split_tokens, text_lines,
    to_ascii_lowercase, parse_usize,
};
use crate::{Error, FieldKind, FieldVal, Pattern, Position, Symmetry, kind_name, symmetry_name};

verus! {

// ---------------------------------------------------------------------------
// the lines of a file
// ---------------------------------------------------------------------------
/// The state of a sequence of lines being read: the lines, those of them
/// that could not be read, and how far reading has come.
pub struct LinesState {
    pub lines: Seq<Seq<u8>>,
    /// the positions of the lines that could not be read (their text is empty)
    pub failed: Set<int>,
    pub pos: nat,
}

impl LinesState {
    /// what reading the next line gives: the line, a failure, or the end
    pub open spec fn current(self) -> Option<Result<Seq<u8>, Error>> {
        if self.pos < self.lines.len() {
            if self.failed.contains(self.pos as int) {
                Some(Err(Error::IoError))
            } else {
                Some(Ok(self.lines[self.pos as int]))
            }
        } else {
            None
        }
    }

    /// the state after reading the next line (a line that failed is passed too)
    pub open spec fn advance(self) -> LinesState {
        if self.pos < self.lines.len() {
            LinesState { pos: self.pos + 1, ..self }
        } else {
            self
        }
    }
}

/// The lines of a text being read, as `BufRead::lines` hands them out: each
/// line without its line ending, or a failure where a line could not be read.
pub struct TextLines {
    lines: Vec<Option<Vec<u8>>>,
    pos: usize,
}

/// the text of each line, empty where the line could not be read
pub open spec fn line_views(v: Seq<Option<Vec<u8>>>) -> Seq<Seq<u8>> {
    v.map_values(
        |o: Option<Vec<u8>>|
            match o {
                Some(l) => l@,
                None => Seq::<u8>::empty(),
            },
    )
}

/// the positions of the lines that could not be read
pub open spec fn failed_lines(v: Seq<Option<Vec<u8>>>) -> Set<int> {
    Set::new(|i: int| 0 <= i < v.len() && v[i] is None)
}

pub open spec fn opt_line_view(r: Option<Result<Vec<u8>, Error>>) -> Option<Result<Seq<u8>, Error>> {
    match r {
        None => None,
        Some(Ok(l)) => Some(Ok(l@)),
        Some(Err(e)) => Some(Err(e)),
    }
}

/// the tokens of what reading a line gives
pub open spec fn opt_tokens(r: Option<Result<Seq<u8>, Error>>) -> Option<Result<Seq<Seq<u8>>, Error>> {
    match r {
        None => None,
        Some(Ok(l)) => Some(Ok(tokens(l))),
        Some(Err(e)) => Some(Err(e)),
    }
}

pub open spec fn opt_tokens_view(r: Option<Result<Vec<Vec<u8>>, Error>>) -> Option<
    Result<Seq<Seq<u8>>, Error>,
> {
    match r {
        None => None,
        Some(Ok(l)) => Some(Ok(views(l@))),
        Some(Err(e)) => Some(Err(e)),
    }
}

/// a comment line starts with `%`
pub open spec fn is_comment(line: Seq<u8>) -> bool {
    line.len() > 0 && line[0] == 0x25
}

impl View for TextLines {
    type V = LinesState;

    closed spec fn view(&self) -> LinesState {
        LinesState {
            lines: line_views(self.lines@),
            failed: failed_lines(self.lines@),
            pos: self.pos as nat,
        }
    }
}

fn copy_bytes(s: &[u8]) -> (r: Vec<u8>)
    ensures
        r@ == s@,
{
    let mut out: Vec<u8> = Vec::new();
    let mut i: usize = 0;
    while i < s.len()
        invariant
            0 <= i <= s.len(),
            out@ =~= s@.take(i as int),
        decreases s.len() - i,
    {
        out.push(s[i]);
        i = i + 1;
    }
    assert(s@.take(i as int) =~= s@);
    out
}

impl TextLines {
    /// The lines of a text, in order; `None` stands for a line that could not
    /// be read.
    pub fn new(lines: Vec<Option<Vec<u8>>>) -> (r: TextLines)
        ensures
            r@ == (LinesState { lines: line_views(lines@), failed: failed_lines(lines@), pos: 0 }),
    {
        TextLines { lines, pos: 0 }
    }

    /// The lines of a text that is at hand (none of them fails).
    pub fn of_text(text: &[u8]) -> (r: TextLines)
        ensures
            r@ == (LinesState { lines: text_lines(text@), failed: Set::empty(), pos: 0 }),
    {
        let mut split = split_lines(text);
        let ghost ls = split@;
        let n = split.len();
        let mut lines: Vec<Option<Vec<u8>>> = Vec::new();
        let mut i: usize = 0;
        while split.len() > 0
            invariant
                n == ls.len(),
                i + split@.len() == ls.len(),
                split@ == ls.skip(i as int),
                lines@.len() == i,
                forall|k: int| 0 <= k < i ==> #[trigger] lines@[k] == Some(ls[k]),
            decreases split@.len(),
        {
            let l = split.remove(0);
            assert(l == ls[i as int]);
            lines.push(Some(l));
            assert(split@ =~= ls.skip(i + 1));
            i = i + 1;
        }
        assert(line_views(lines@) =~= views(ls));
        assert(failed_lines(lines@) =~= Set::<int>::empty());
        TextLines { lines, pos: 0 }
    }

    /// what reading the next line would give, without reading it
    pub fn peek_line(&self) -> (r: Option<Result<Vec<u8>, Error>>)
        ensures
            opt_line_view(r) == self@.current(),
    {
        if self.pos < self.lines.len() {
            match &self.lines[self.pos] {
                Some(l) => Some(Ok(copy_bytes(l.as_slice()))),
                None => Some(Err(Error::IoError)),
            }
        } else {
            None
        }
    }

    /// whether the next line is a comment line
    pub fn next_is_comment(&self) -> (r: bool)
        ensures
            r == (self@.current() matches Some(Ok(l)) && is_comment(l)),
    {
        if self.pos < self.lines.len() {
            match &self.lines[self.pos] {
                Some(l) => l.len() > 0 && l[0] == 0x25,
                None => false,
            }
        } else {
            false
        }
    }

    /// moves past the next line
    pub fn advance(&mut self)
        ensures
            final(self)@ == old(self)@.advance(),
    {
        if self.pos < self.lines.len() {
            self.pos = self.pos + 1;
        }
    }

    /// reads the next line
    pub fn next_line(&mut self) -> (r: Option<Result<Vec<u8>, Error>>)
        ensures
            opt_line_view(r) == old(self)@.current(),
            final(self)@ == old(self)@.advance(),
    {
        let r = self.peek_line();
        self.advance();
        r
    }

    /// reads the next line and splits it into its whitespace-separated tokens
    pub fn next_tokens(&mut self) -> (r: Option<Result<Vec<Vec<u8>>, Error>>)
        ensures
            opt_tokens_view(r) == opt_tokens(old(self)@.current()),
            final(self)@ == old(self)@.advance(),
    {
        let r = if self.pos < self.lines.len() {
            match &self.lines[self.pos] {
                Some(l) => Some(Ok(split_tokens(l.as_slice()))),
                None => Some(Err(Error::IoError)),
            }
        } else {
            None
        };
        self.advance();
        r
    }
}

// ---------------------------------------------------------------------------
// the header
// ---------------------------------------------------------------------------
/// how the entries of a matrix are laid out in a file
#[derive(Clone, Copy, Debug, PartialEq, Eq, Structural)]
pub enum MatrixFormat {
    /// every entry, column by column (a dense matrix)
    Array,
    /// a list of positions with their entries (a sparse matrix)
    Coordinate,
}

/// what the header line and the content header line of a file say
#[derive(Clone, Copy, Debug, PartialEq, Eq, Structural)]
pub struct Header {
    pub format: MatrixFormat,
    pub field: FieldKind,
    pub symmetry: Symmetry,
    pub num_rows: usize,
    pub num_cols: usize,
    /// the number of entry lines of a coordinate file (0 for an array file)
    pub num_entries: usize,
}

/// `%%matrixmarket`
pub open spec fn banner_name() -> Seq<u8> {
    seq![
        0x25u8,
        0x25u8,
        0x6du8,
        0x61u8,
        0x74u8,
        0x72u8,
        0x69u8,
        0x78u8,
        0x6du8,
        0x61u8,
        0x72u8,
        0x6bu8,
        0x65u8,
        0x74u8,
    ]
}

/// `matrix`
pub open spec fn matrix_name() -> Seq<u8> {
    seq![0x6du8, 0x61u8, 0x74u8, 0x72u8, 0x69u8, 0x78u8]
}

/// `array` / `coordinate`
pub open spec fn format_name(f: MatrixFormat) -> Seq<u8> {
    match f {
        MatrixFormat::Array => seq![0x61u8, 0x72u8, 0x72u8, 0x61u8, 0x79u8],
        MatrixFormat::Coordinate => seq![
            0x63u8,
            0x6fu8,
            0x6fu8,
            0x72u8,
            0x64u8,
            0x69u8,
            0x6eu8,
            0x61u8,
            0x74u8,
            0x65u8,
        ],
    }
}

pub open spec fn format_from_name(t: Seq<u8>) -> Option<MatrixFormat> {
    if t == format_name(MatrixFormat::Array) {
        Some(MatrixFormat::Array)
    } else if t == format_name(MatrixFormat::Coordinate) {
        Some(MatrixFormat::Coordinate)
    } else {
        None
    }
}

pub open spec fn kind_from_name(t: Seq<u8>) -> Option<FieldKind> {
    if t == kind_name(FieldKind::Real) {
        Some(FieldKind::Real)
    } else if t == kind_name(FieldKind::Integer) {
        Some(FieldKind::Integer)
    } else if t == kind_name(FieldKind::Complex) {
        Some(FieldKind::Complex)
    } else if t == kind_name(FieldKind::Pattern) {
        Some(FieldKind::Pattern)
    } else {
        None
    }
}

pub open spec fn symmetry_from_name(t: Seq<u8>) -> Option<Symmetry> {
    if t == symmetry_name(Symmetry::General) {
        Some(Symmetry::General)
    } else if t == symmetry_name(Symmetry::Symmetric) {
        Some(Symmetry::Symmetric)
    } else if t == symmetry_name(Symmetry::SkewSymmetric) {
        Some(Symmetry::SkewSymmetric)
    } else if t == symmetry_name(Symmetry::Hermitian) {
        Some(Symmetry::Hermitian)
    } else {
        None
    }
}

/// The combinations of format, field and symmetry that the format allows:
/// pattern only in coordinate files and only general or symmetric, hermitian
/// only with complex numbers.
pub open spec fn supported(format: MatrixFormat, field: FieldKind, symmetry: Symmetry) -> bool {
    match field {
        FieldKind::Pattern => format == MatrixFormat::Coordinate && (symmetry == Symmetry::General
            || symmetry == Symmetry::Symmetric),
        FieldKind::Complex => true,
        _ => symmetry != Symmetry::Hermitian,
    }
}

/// The header that the content header line's tokens `ct` give, for the format,
/// field and symmetry words of the header line.
pub open spec fn content_header_spec(
    format: MatrixFormat,
    field: Seq<u8>,
    symmetry: Seq<u8>,
    ct: Seq<Seq<u8>>,
) -> Result<Header, Error> {
    if ct.len() < 1 {
        Err(Error::MalformerContentHeader)
    } else if parse_usize_spec(ct[0]) is Err {
        Err(Error::IntError(parse_usize_spec(ct[0])->Err_0))
    } else if ct.len() < 2 {
        Err(Error::MalformerContentHeader)
    } else if parse_usize_spec(ct[1]) is Err {
        Err(Error::IntError(parse_usize_spec(ct[1])->Err_0))
    } else {
        let rows = parse_usize_spec(ct[0])->Ok_0;
        let cols = parse_usize_spec(ct[1])->Ok_0;
        match symmetry_from_name(symmetry) {
            None => Err(Error::UnsupportedHeaderOptions),
            Some(sym) => if sym != Symmetry::General && cols != rows {
                Err(Error::NotSquare)
            } else if format == MatrixFormat::Array {
                match kind_from_name(field) {
                    Some(k) => if supported(format, k, sym) {
                        Ok(
                            Header {
                                format,
                                field: k,
                                symmetry: sym,
                                num_rows: rows,
                                num_cols: cols,
                                num_entries: 0,
                            },
                        )
                    } else {
                        Err(Error::UnsupportedHeaderOptions)
                    },
                    None => Err(Error::UnsupportedHeaderOptions),
                }
            } else if ct.len() < 3 {
                Err(Error::MalformerContentHeader)
            } else if parse_usize_spec(ct[2]) is Err {
                Err(Error::IntError(parse_usize_spec(ct[2])->Err_0))
            } else {
                match kind_from_name(field) {
                    Some(k) => if supported(format, k, sym) {
                        Ok(
                            Header {
                                format,
                                field: k,
                                symmetry: sym,
                                num_rows: rows,
                                num_cols: cols,
                                num_entries: parse_usize_spec(ct[2])->Ok_0,
                            },
                        )
                    } else {
                        Err(Error::UnsupportedHeaderOptions)
                    },
                    None => Err(Error::UnsupportedHeaderOptions),
                }
            },
        }
    }
}

/// the state after the comment lines that come next
pub open spec fn skip_comments(s: LinesState) -> LinesState
    decreases s.lines.len() - s.pos,
{
    if s.current() matches Some(Ok(l)) && is_comment(l) {
        skip_comments(s.advance())
    } else {
        s
    }
}

/// What reading the header of a file gives, and the state after it.
///
/// The header line (case-insensitive) is `%%MatrixMarket object format field symmetry`,
/// then come comment lines (starting with `%`), then the content header line:
/// `num_rows num_cols` for an array, `num_rows num_cols num_entries` for coordinates.
pub open spec fn header_spec(s: LinesState) -> (Result<Header, Error>, LinesState) {
    match s.current() {
        None => (Err(Error::NoHeader), s),
        Some(Err(_)) => (Err(Error::IoError), s.advance()),
        Some(Ok(line)) => {
            let t = tokens(lowercase(line));
            let s1 = s.advance();
            if t.len() < 1 || t[0] != banner_name() || t.len() < 3 {
                (Err(Error::MalformedHeader), s1)
            } else {
                let s2 = skip_comments(s1);
                match s2.current() {
                    None => (Err(Error::InsufficientContent), s2),
                    Some(Err(_)) => (Err(Error::IoError), s2.advance()),
                    Some(Ok(content)) => {
                        if t[1] != matrix_name() || format_from_name(t[2]) is None {
                            (Err(Error::UnsupportedHeaderOptions), s2)
                        } else if t.len() < 5 {
                            (Err(Error::MalformedHeader), s2)
                        } else {
                            (
                                content_header_spec(
                                    format_from_name(t[2])->Some_0,
                                    t[3],
                                    t[4],
                                    tokens(lowercase(content)),
                                ),
                                s2.advance(),
                            )
                        }
                    },
                }
            }
        },
    }
}

fn bytes_eq(a: &[u8], b: &[u8]) -> (r: bool)
    ensures
        r == (a@ == b@),
{
    if a.len() != b.len() {
        return false;
    }
    let mut i: usize = 0;
    while i < a.len()
        invariant
            0 <= i <= a.len(),
            a.len() == b.len(),
            forall|k: int| 0 <= k < i ==> a@[k] == b@[k],
        decreases a.len() - i,
    {
        if a[i] != b[i] {
            return false;
        }
        i = i + 1;
    }
    assert(a@ =~= b@);
    true
}

fn banner_text() -> (s: &'static str)
    ensures
        s.spec_bytes() == banner_name(),
{
    let s = "%%matrixmarket";
    proof {
        reveal_strlit("%%matrixmarket");
        vstd::string::is_ascii_spec_bytes(s);
    }
    assert(s.spec_bytes() =~= banner_name());
    s
}

fn matrix_text() -> (s: &'static str)
    ensures
        s.spec_bytes() == matrix_name(),
{
    let s = "matrix";
    proof {
        reveal_strlit("matrix");
        vstd::string::is_ascii_spec_bytes(s);
    }
    assert(s.spec_bytes() =~= matrix_name());
    s
}

impl MatrixFormat {
    /// represents this format as it would appear in the header line
    pub fn as_string(&self) -> (s: &'static str)
        ensures
            s.spec_bytes() == format_name(*self),
    {
        match self {
            MatrixFormat::Array => {
                let s = "array";
                proof {
                    reveal_strlit("array");
                    vstd::string::is_ascii_spec_bytes(s);
                }
                assert(s.spec_bytes() =~= format_name(*self));
                s
            },
            MatrixFormat::Coordinate => {
                let s = "coordinate";
                proof {
                    reveal_strlit("coordinate");
                    vstd::string::is_ascii_spec_bytes(s);
                }
                assert(s.spec_bytes() =~= format_name(*self));
                s
            },
        }
    }
}

fn format_from_token(t: &[u8]) -> (r: Option<MatrixFormat>)
    ensures
        r == format_from_name(t@),
{
    if bytes_eq(t, MatrixFormat::Array.as_string().as_bytes()) {
        Some(MatrixFormat::Array)
    } else if bytes_eq(t, MatrixFormat::Coordinate.as_string().as_bytes()) {
        Some(MatrixFormat::Coordinate)
    } else {
        None
    }
}

fn kind_from_token(t: &[u8]) -> (r: Option<FieldKind>)
    ensures
        r == kind_from_name(t@),
{
    if bytes_eq(t, FieldKind::Real.as_string().as_bytes()) {
        Some(FieldKind::Real)
    } else if bytes_eq(t, FieldKind::Integer.as_string().as_bytes()) {
        Some(FieldKind::Integer)
    } else if bytes_eq(t, FieldKind::Complex.as_string().as_bytes()) {
        Some(FieldKind::Complex)
    } else if bytes_eq(t, FieldKind::Pattern.as_string().as_bytes()) {
        Some(FieldKind::Pattern)
    } else {
        None
    }
}

fn symmetry_from_token(t: &[u8]) -> (r: Option<Symmetry>)
    ensures
        r == symmetry_from_name(t@),
{
    if bytes_eq(t, Symmetry::General.as_string().as_bytes()) {
        Some(Symmetry::General)
    } else if bytes_eq(t, Symmetry::Symmetric.as_string().as_bytes()) {
        Some(Symmetry::Symmetric)
    } else if bytes_eq(t, Symmetry::SkewSymmetric.as_string().as_bytes()) {
        Some(Symmetry::SkewSymmetric)
    } else if bytes_eq(t, Symmetry::Hermitian.as_string().as_bytes()) {
        Some(Symmetry::Hermitian)
    } else {
        None
    }
}

/// whether the format allows the combination of format, field and symmetry
pub fn is_supported(format: MatrixFormat, field: FieldKind, symmetry: Symmetry) -> (r: bool)
    ensures
        r == supported(format, field, symmetry),
{
    match field {
        FieldKind::Pattern => format == MatrixFormat::Coordinate && (symmetry == Symmetry::General
            || symmetry == Symmetry::Symmetric),
        FieldKind::Complex => true,
        _ => symmetry != Symmetry::Hermitian,
    }
}

/// Reads the content header line's tokens `ct`, for the format, field and
/// symmetry words of the header line.
fn read_content_header(
    format: MatrixFormat,
    field: &[u8],
    symmetry: &[u8],
    ct: &Vec<Vec<u8>>,
) -> (r: Result<Header, Error>)
    ensures
        r == content_header_spec(format, field@, symmetry@, views(ct@)),
{
    let ghost cv = views(ct@);
    if ct.len() < 1 {
        return Err(Error::MalformerContentHeader);
    }
    assert(cv[0] == ct@[0]@);
    let rows = match parse_usize(ct[0].as_slice()) {
        Ok(v) => v,
        Err(k) => return Err(Error::IntError(k)),
    };
    if ct.len() < 2 {
        return Err(Error::MalformerContentHeader);
    }
    assert(cv[1] == ct@[1]@);
    let cols = match parse_usize(ct[1].as_slice()) {
        Ok(v) => v,
        Err(k) => return Err(Error::IntError(k)),
    };
    let sym = match symmetry_from_token(symmetry) {
        Some(s) => s,
        None => return Err(Error::UnsupportedHeaderOptions),
    };
    if sym != Symmetry::General && cols != rows {
        return Err(Error::NotSquare);
    }
    let num_entries = match format {
        MatrixFormat::Array => 0,
        MatrixFormat::Coordinate => {
            if ct.len() < 3 {
                return Err(Error::MalformerContentHeader);
            }
            assert(cv[2] == ct@[2]@);
            match parse_usize(ct[2].as_slice()) {
                Ok(v) => v,
                Err(k) => return Err(Error::IntError(k)),
            }
        },
    };
    match kind_from_token(field) {
        Some(k) => if is_supported(format, k, sym) {
            Ok(
                Header {
                    format,
                    field: k,
                    symmetry: sym,
                    num_rows: rows,
                    num_cols: cols,
                    num_entries,
                },
            )
        } else {
            Err(Error::UnsupportedHeaderOptions)
        },
        None => Err(Error::UnsupportedHeaderOptions),
    }
}

/// Reads the header of a matrix market file: the header line, the comment
/// lines and the content header line. The lines are left at the first entry.
///
/// note: .mtx is an ascii format and is case insensitive as a whole
pub fn read_header(lines: &mut TextLines) -> (r: Result<Header, Error>)
    ensures
        (r, final(lines)@) == header_spec(old(lines)@),
{
    let ghost s0 = lines@;
    let header_line = match lines.next_line() {
        None => return Err(Error::NoHeader),
        Some(Err(_)) => return Err(Error::IoError),
        Some(Ok(l)) => l,
    };
    let lower = to_ascii_lowercase(header_line.as_slice());
    let t = split_tokens(lower.as_slice());
    let ghost tv = views(t@);
    if t.len() < 1 {
        return Err(Error::MalformedHeader);
    }
    assert(tv[0] == t@[0]@);
    if !bytes_eq(t[0].as_slice(), banner_text().as_bytes()) || t.len() < 3 {
        return Err(Error::MalformedHeader);
    }
    assert(tv[1] == t@[1]@);
    assert(tv[2] == t@[2]@);
    // skipping through comments
    while lines.next_is_comment()
        invariant
            skip_comments(lines@) == skip_comments(s0.advance()),
        decreases lines@.lines.len() - lines@.pos,
    {
        lines.advance();
    }
    let content = match lines.peek_line() {
        None => return Err(Error::InsufficientContent),
        Some(Err(_)) => {
            lines.advance();
            return Err(Error::IoError);
        },
        Some(Ok(l)) => l,
    };
    if !bytes_eq(t[1].as_slice(), matrix_text().as_bytes()) {
        return Err(Error::UnsupportedHeaderOptions);
    }
    let format = match format_from_token(t[2].as_slice()) {
        Some(f) => f,
        None => return Err(Error::UnsupportedHeaderOptions),
    };
    if t.len() < 5 {
        return Err(Error::MalformedHeader);
    }
    assert(tv[3] == t@[3]@);
    assert(tv[4] == t@[4]@);
    lines.advance();
    let content_lower = to_ascii_lowercase(content.as_slice());
    let ct = split_tokens(content_lower.as_slice());
    read_content_header(format, t[3].as_slice(), t[4].as_slice(), &ct)
}

} // verus!

verus! {

// ---------------------------------------------------------------------------
// reading fields line by line
// ---------------------------------------------------------------------------
/// why reading a run of field lines stopped
pub enum RunEnd {
    /// all the lines asked for were read
    Complete,
    /// a line could not be read, or its field could not be read
    Failed(Error),
    /// the lines ended
    Exhausted,
}

/// Reading up to `n` lines of one field each: the fields read, in order, why
/// reading stopped, and the state after. Reading stops at the first line that
/// fails (which is consumed) or at the end of the lines.
pub open spec fn read_run<T: crate::Field>(s: LinesState, n: nat) -> (Seq<T>, RunEnd, LinesState)
    decreases n,
{
    if n == 0 {
        (seq![], RunEnd::Complete, s)
    } else {
        match s.current() {
            None => (seq![], RunEnd::Exhausted, s),
            Some(Err(e)) => (seq![], RunEnd::Failed(e), s.advance()),
            Some(Ok(line)) => match T::spec_read(tokens(line)) {
                Err(e) => (seq![], RunEnd::Failed(e), s.advance()),
                Ok(v) => {
                    let (vs, end, s2) = read_run::<T>(s.advance(), (n - 1) as nat);
                    (seq![v] + vs, end, s2)
                },
            },
        }
    }
}

/// one column of a dense matrix, handed out entry by entry from the top
pub struct ParamatrizedMatrixArrayColumn<T: crate::Field> {
    column: Vec<T>,
    next_row: usize,
}

impl<T: crate::Field> ParamatrizedMatrixArrayColumn<T> {
    /// the entries not handed out yet, from the top
    pub closed spec fn rest(&self) -> Seq<T> {
        if self.next_row <= self.column@.len() {
            self.column@.skip(self.next_row as int)
        } else {
            Seq::empty()
        }
    }

    pub fn from_vec(column: Vec<T>) -> (r: Self)
        ensures
            r.rest() == column@,
    {
        let r = ParamatrizedMatrixArrayColumn { column, next_row: 0 };
        assert(r.column@.skip(0) =~= column@);
        r
    }

    /// the next entry of the column
    pub fn next(&mut self) -> (r: Option<T>)
        ensures
            old(self).rest().len() == 0 ==> r is None && final(self).rest() == old(self).rest(),
            old(self).rest().len() > 0 ==> r == Some(old(self).rest()[0]) && final(self).rest()
                == old(self).rest().drop_first(),
    {
        if self.next_row < self.column.len() {
            let v = self.column[self.next_row];
            assert(old(self).rest()[0] == old(self).column@[old(self).next_row as int]);
            self.next_row = self.next_row + 1;
            assert(final(self).rest() =~= old(self).rest().drop_first());
            Some(v)
        } else {
            None
        }
    }
}

pub open spec fn column_result_view<T: crate::Field>(
    r: Option<Result<ParamatrizedMatrixArrayColumn<T>, Error>>,
) -> Option<Result<Seq<T>, Error>> {
    match r {
        None => None,
        Some(Ok(c)) => Some(Ok(c.rest())),
        Some(Err(e)) => Some(Err(e)),
    }
}

// ---------------------------------------------------------------------------
// general arrays
// ---------------------------------------------------------------------------
/// the state of a reader of a dense matrix without symmetry
pub struct GeneralArrayState {
    pub lines: LinesState,
    pub num_rows: usize,
    pub current_col: usize,
    pub num_cols: usize,
}

/// What the next column of a dense matrix without symmetry is, and the state
/// after it: `num_rows` lines of one field each, then the next column.
pub open spec fn general_step<T: crate::Field>(s: GeneralArrayState) -> (
    Option<Result<Seq<T>, Error>>,
    GeneralArrayState,
) {
    if s.current_col < s.num_cols {
        let (vals, end, l2) = read_run::<T>(s.lines, s.num_rows as nat);
        let res = match end {
            RunEnd::Complete => Ok(vals),
            RunEnd::Failed(e) => Err(e),
            RunEnd::Exhausted => Err(Error::InsufficientContent),
        };
        (Some(res), GeneralArrayState { lines: l2, current_col: (s.current_col + 1) as usize, ..s })
    } else {
        (None, s)
    }
}

/// reads a dense matrix without symmetry, one column at a time
pub struct GeneralMatrixArrayReader<T: crate::Field> {
    reader: TextLines,
    num_rows: usize,
    current_col: usize,
    num_cols: usize,
    field: core::marker::PhantomData<T>,
}

impl<T: crate::Field> View for GeneralMatrixArrayReader<T> {
    type V = GeneralArrayState;

    closed spec fn view(&self) -> GeneralArrayState {
        GeneralArrayState {
            lines: self.reader@,
            num_rows: self.num_rows,
            current_col: self.current_col,
            num_cols: self.num_cols,
        }
    }
}

impl<T: crate::Field> GeneralMatrixArrayReader<T> {
    pub fn internal_new(reader: TextLines, num_rows: usize, num_cols: usize) -> (r: Self)
        ensures
            r@ == (GeneralArrayState { lines: reader@, num_rows, current_col: 0, num_cols }),
    {
        GeneralMatrixArrayReader {
            reader,
            num_rows,
            current_col: 0,
            num_cols,
            field: core::marker::PhantomData,
        }
    }

    /// reads the next column
    pub fn next(&mut self) -> (r: Option<Result<ParamatrizedMatrixArrayColumn<T>, Error>>)
        ensures
            (column_result_view(r), final(self)@) == general_step::<T>(old(self)@),
    {
        if self.current_col < self.num_cols {
            self.current_col = self.current_col + 1;
            let ghost s0 = self.reader@;
            let mut vec: Vec<T> = Vec::new();
            let mut i: usize = 0;
            while i < self.num_rows
                invariant
                    0 <= i <= self.num_rows,
                    self.num_rows == old(self).num_rows,
                    self.num_cols == old(self).num_cols,
                    self.current_col == old(self).current_col + 1,
                    old(self).current_col < old(self).num_cols,
                    s0 == old(self).reader@,
                    ({
                        let (a, e, f) = read_run::<T>(self.reader@, (self.num_rows - i) as nat);
                        read_run::<T>(s0, self.num_rows as nat) == (vec@ + a, e, f)
                    }),
                decreases self.num_rows - i,
            {
                match self.reader.next_tokens() {
                    None => {
                        assert(vec@ + seq![] =~= vec@);
                        return Some(Err(Error::InsufficientContent));
                    },
                    Some(Err(e)) => {
                        assert(vec@ + seq![] =~= vec@);
                        return Some(Err(e));
                    },
                    Some(Ok(toks)) => {
                        match T::read(toks.as_slice()) {
                            Err(e) => {
                                assert(vec@ + seq![] =~= vec@);
                                return Some(Err(e));
                            },
                            Ok(field) => {
                                proof {
                                    let (a, e, f) = read_run::<T>(
                                        self.reader@,
                                        (self.num_rows - i - 1) as nat,
                                    );
                                    assert(vec@.push(field) + a =~= vec@ + (seq![field] + a));
                                }
                                vec.push(field);
                            },
                        }
                    },
                }
                i = i + 1;
            }
            assert(vec@ + seq![] =~= vec@);
            Some(Ok(ParamatrizedMatrixArrayColumn::from_vec(vec)))
        } else {
            None
        }
    }
}

} // verus!

verus! {

// ---------------------------------------------------------------------------
// symmetric arrays
// ---------------------------------------------------------------------------
/// how an entry below the diagonal gives the entry mirrored above it
#[derive(Clone, Copy, Debug, PartialEq, Eq, Structural)]
pub enum Mirror {
    /// the same value (symmetric)
    Identity,
    /// the inverse (skew-symmetric)
    Inverse,
    /// the conjugate (hermitian)
    Conjugate,
}

pub open spec fn mirror_value<T: crate::Field>(m: Mirror, v: T) -> T {
    match m {
        Mirror::Identity => v,
        Mirror::Inverse => T::spec_inverse(v),
        Mirror::Conjugate => T::spec_conjugate(v),
    }
}

impl Mirror {
    /// the mirror of an entry
    pub fn apply<T: crate::Field>(&self, v: &T) -> (r: T)
        ensures
            r == mirror_value(*self, *v),
            *self == Mirror::Identity ==> r == *v,
    {
        match self {
            Mirror::Identity => *v,
            Mirror::Inverse => v.inverse(),
            Mirror::Conjugate => v.conjugate(),
        }
    }
}

pub open spec fn cols_view<T>(c: Seq<Vec<T>>) -> Seq<Seq<T>> {
    c.map_values(|x: Vec<T>| x@)
}

/// The pending columns after the entries `vals` were read below the
/// diagonal: the `k`-th of them, mirrored, goes to the end of the `k`-th
/// column to the right. The pending columns are kept in reverse order (the
/// next column last).
pub open spec fn mirror_into<T: crate::Field>(rest: Seq<Seq<T>>, vals: Seq<T>, m: Mirror) -> Seq<
    Seq<T>,
> {
    Seq::new(
        rest.len(),
        |j: int|
            if rest.len() - 1 - j < vals.len() {
                rest[j].push(mirror_value(m, vals[rest.len() - 1 - j]))
            } else {
                rest[j]
            },
    )
}

/// the state of a reader of a dense matrix stored as its lower triangle
pub struct LowerTriState<T> {
    pub lines: LinesState,
    pub size: usize,
    pub current_col: usize,
    pub mirror: Mirror,
    /// the upper parts of the columns still to come, gathered from the
    /// entries mirrored so far (the next column last)
    pub pending: Seq<Seq<T>>,
}

/// one pending column per column still to come
pub open spec fn lower_tri_wf<T>(s: LowerTriState<T>) -> bool {
    s.pending.len() + s.current_col == s.size
}

/// The rest of a column after its entries `col` down to the diagonal, read
/// from `lines`: the entries below the diagonal, one per line, each mirrored
/// into the column to the right of it. The column is complete when it holds
/// `size` entries; reading stops at the first failure, and lines that run out
/// are too little content.
pub open spec fn lower_fill<T: crate::Field>(s: LowerTriState<T>, col: Seq<T>, lines: LinesState) -> (
    Option<Result<Seq<T>, Error>>,
    LowerTriState<T>,
) {
    let rest = s.pending.drop_last();
    let (vals, end, l2) = read_run::<T>(lines, rest.len());
    let full = col + vals;
    let res = match end {
        RunEnd::Failed(e) => Err(e),
        RunEnd::Exhausted => Err(Error::InsufficientContent),
        RunEnd::Complete => if full.len() == s.size {
            Ok(full)
        } else {
            Err(Error::GenericError)
        },
    };
    (
        Some(res),
        LowerTriState {
            lines: l2,
            current_col: (s.current_col + 1) as usize,
            pending: mirror_into(rest, vals, s.mirror),
            ..s
        },
    )
}

/// What the next column of a matrix stored as its lower triangle with the
/// diagonal is, and the state after it: the pending upper part, the diagonal
/// entry, then the entries below it.
pub open spec fn lower_inc_step<T: crate::Field>(s: LowerTriState<T>) -> (
    Option<Result<Seq<T>, Error>>,
    LowerTriState<T>,
) {
    if s.current_col < s.size {
        let after = |lines: LinesState|
            LowerTriState {
                lines,
                current_col: (s.current_col + 1) as usize,
                pending: s.pending.drop_last(),
                ..s
            };
        match s.lines.current() {
            None => (Some(Err(Error::InsufficientContent)), after(s.lines)),
            Some(Err(e)) => (Some(Err(e)), after(s.lines.advance())),
            Some(Ok(line)) => match T::spec_read(tokens(line)) {
                Err(e) => (Some(Err(e)), after(s.lines.advance())),
                Ok(d) => lower_fill(s, s.pending.last().push(d), s.lines.advance()),
            },
        }
    } else {
        (None, s)
    }
}

/// What the next column of a matrix stored as its lower triangle without the
/// diagonal is, and the state after it: the pending upper part, zero on the
/// diagonal, then the entries below it.
pub open spec fn lower_exc_step<T: crate::Field>(s: LowerTriState<T>) -> (
    Option<Result<Seq<T>, Error>>,
    LowerTriState<T>,
) {
    if s.current_col < s.size {
        lower_fill(s, s.pending.last().push(T::spec_zero()), s.lines)
    } else {
        (None, s)
    }
}

/// reads the entries below the diagonal into `col`, mirroring each into the
/// pending column it belongs to
fn fill_below<T: crate::Field>(
    reader: &mut TextLines,
    columns: &mut Vec<Vec<T>>,
    col: &mut Vec<T>,
    mirror: Mirror,
) -> (r: RunEnd)
    ensures
        ({
            let (vals, end, l2) = read_run::<T>(old(reader)@, old(columns)@.len() as nat);
            &&& r == end
            &&& final(reader)@ == l2
            &&& final(col)@ == old(col)@ + vals
            &&& cols_view(final(columns)@) == mirror_into(cols_view(old(columns)@), vals, mirror)
        }),
{
    let n = columns.len();
    let ghost r0 = reader@;
    let ghost c0 = cols_view(columns@);
    let ghost col0 = col@;
    let mut k: usize = 0;
    assert(col@.skip(col0.len() as int) =~= Seq::<T>::empty());
    assert(cols_view(columns@) =~= mirror_into(c0, Seq::<T>::empty(), mirror));
    while k < n
        invariant
            0 <= k <= n,
            n == columns.len(),
            r0 == old(reader)@,
            c0 == cols_view(old(columns)@),
            n == old(columns)@.len(),
            col0 == old(col)@,
            col@.len() == col0.len() + k,
            col@.take(col0.len() as int) == col0,
            ({
                let vals = col@.skip(col0.len() as int);
                let (a, e, f) = read_run::<T>(reader@, (n - k) as nat);
                &&& read_run::<T>(r0, n as nat) == (vals + a, e, f)
                &&& cols_view(columns@) == mirror_into(c0, vals, mirror)
            }),
        decreases n - k,
    {
        let ghost vals = col@.skip(col0.len() as int);
        match reader.next_tokens() {
            None => {
                assert(vals + seq![] =~= vals);
                assert(col@ =~= col0 + vals);
                return RunEnd::Exhausted;
            },
            Some(Err(e)) => {
                assert(vals + seq![] =~= vals);
                assert(col@ =~= col0 + vals);
                return RunEnd::Failed(e);
            },
            Some(Ok(toks)) => {
                match T::read(toks.as_slice()) {
                    Err(e) => {
                        assert(vals + seq![] =~= vals);
                        assert(col@ =~= col0 + vals);
                        return RunEnd::Failed(e);
                    },
                    Ok(field) => {
                        let m = mirror.apply(&field);
                        let j = n - 1 - k;
                        let ghost before = columns@;
                        columns[j].push(m);
                        col.push(field);
                        proof {
                            let vals2 = col@.skip(col0.len() as int);
                            assert(vals2 =~= vals.push(field));
                            let (a, e, f) = read_run::<T>(reader@, (n - k - 1) as nat);
                            assert(vals2 + a =~= vals + (seq![field] + a));
                            assert(col@.take(col0.len() as int) =~= col0);
                            assert(vals.len() == k);
                            assert forall|i: int| 0 <= i < n implies #[trigger] cols_view(
                                columns@,
                            )[i] == mirror_into(c0, vals2, mirror)[i] by {
                                assert(cols_view(before)[i] == mirror_into(c0, vals, mirror)[i]);
                                if i == j {
                                    assert(vals2[k as int] == field);
                                } else {
                                    assert(columns@[i] == before[i]);
                                    if n - 1 - i < vals.len() {
                                        assert(vals2[n - 1 - i] == vals[n - 1 - i]);
                                    }
                                }
                            }
                            assert(cols_view(columns@) =~= mirror_into(c0, vals2, mirror));
                        }
                    },
                }
            },
        }
        k = k + 1;
    }
    proof {
        let vals = col@.skip(col0.len() as int);
        assert(vals + seq![] =~= vals);
        assert(col@ =~= col0 + vals);
    }
    RunEnd::Complete
}

} // verus!

verus! {

/// `size` empty pending columns
fn empty_columns<T>(size: usize) -> (r: Vec<Vec<T>>)
    ensures
        cols_view(r@) == Seq::new(size as nat, |i: int| Seq::<T>::empty()),
{
    let mut columns: Vec<Vec<T>> = Vec::new();
    let mut i: usize = 0;
    while i < size
        invariant
            0 <= i <= size,
            cols_view(columns@) =~= Seq::new(i as nat, |k: int| Seq::<T>::empty()),
        decreases size - i,
    {
        let e: Vec<T> = Vec::new();
        let ghost before = columns@;
        columns.push(e);
        assert(cols_view(columns@) =~= cols_view(before).push(Seq::<T>::empty()));
        i = i + 1;
    }
    columns
}

/// AKA: LowerTriangleDiagonalInclusiveMatrixArrayReader
///
/// reads a square dense matrix stored as its lower triangle with the diagonal,
/// one column at a time; the upper triangle is the mirror of the lower one
pub struct LowerTriIncMatrixArrayReader<T: crate::Field> {
    reader: TextLines,
    size: usize,
    current_col: usize,
    mirror: Mirror,
    columns: Vec<Vec<T>>,
}

impl<T: crate::Field> View for LowerTriIncMatrixArrayReader<T> {
    type V = LowerTriState<T>;

    closed spec fn view(&self) -> LowerTriState<T> {
        LowerTriState {
            lines: self.reader@,
            size: self.size,
            current_col: self.current_col,
            mirror: self.mirror,
            pending: cols_view(self.columns@),
        }
    }
}

impl<T: crate::Field> LowerTriIncMatrixArrayReader<T> {
    pub fn internal_new(reader: TextLines, size: usize, mirror: Mirror) -> (r: Self)
        ensures
            r@ == (LowerTriState::<T> {
                lines: reader@,
                size,
                current_col: 0,
                mirror,
                pending: Seq::new(size as nat, |i: int| Seq::<T>::empty()),
            }),
            lower_tri_wf(r@),
    {
        let columns = empty_columns(size);
        LowerTriIncMatrixArrayReader { reader, size, current_col: 0, mirror, columns }
    }

    /// reads the next column
    pub fn next(&mut self) -> (r: Option<Result<ParamatrizedMatrixArrayColumn<T>, Error>>)
        requires
            lower_tri_wf(old(self)@),
        ensures
            (column_result_view(r), final(self)@) == lower_inc_step::<T>(old(self)@),
            lower_tri_wf(final(self)@),
    {
        if self.current_col < self.size {
            self.current_col = self.current_col + 1;
            let mut vec = match self.columns.pop() {
                Some(v) => v,
                None => Vec::new(),
            };
            assert(cols_view(self.columns@) =~= old(self)@.pending.drop_last());
            match self.reader.next_tokens() {
                None => {
                    return Some(Err(Error::InsufficientContent));
                },
                Some(Err(e)) => {
                    return Some(Err(e));
                },
                Some(Ok(toks)) => {
                    match T::read(toks.as_slice()) {
                        Err(e) => {
                            return Some(Err(e));
                        },
                        Ok(d) => {
                            vec.push(d);
                        },
                    }
                },
            }
            let end = fill_below(&mut self.reader, &mut self.columns, &mut vec, self.mirror);
            match end {
                RunEnd::Failed(e) => Some(Err(e)),
                RunEnd::Exhausted => Some(Err(Error::InsufficientContent)),
                RunEnd::Complete => {
                    if vec.len() == self.size {
                        Some(Ok(ParamatrizedMatrixArrayColumn::from_vec(vec)))
                    } else {
                        // likely because of some earlier error preventing a field from being added
                        Some(Err(Error::GenericError))
                    }
                },
            }
        } else {
            None
        }
    }
}

/// AKA: LowerTriangleDiagonalExclusiveMatrixArrayReader
///
/// reads a square dense matrix stored as its lower triangle without the
/// diagonal (which is zero), one column at a time; the upper triangle is the
/// mirror of the lower one
pub struct LowerTriExcMatrixArrayReader<T: crate::Field> {
    reader: TextLines,
    size: usize,
    current_col: usize,
    mirror: Mirror,
    columns: Vec<Vec<T>>,
}

impl<T: crate::Field> View for LowerTriExcMatrixArrayReader<T> {
    type V = LowerTriState<T>;

    closed spec fn view(&self) -> LowerTriState<T> {
        LowerTriState {
            lines: self.reader@,
            size: self.size,
            current_col: self.current_col,
            mirror: self.mirror,
            pending: cols_view(self.columns@),
        }
    }
}

impl<T: crate::Field> LowerTriExcMatrixArrayReader<T> {
    pub fn internal_new(reader: TextLines, size: usize, mirror: Mirror) -> (r: Self)
        ensures
            r@ == (LowerTriState::<T> {
                lines: reader@,
                size,
                current_col: 0,
                mirror,
                pending: Seq::new(size as nat, |i: int| Seq::<T>::empty()),
            }),
            lower_tri_wf(r@),
    {
        let columns = empty_columns(size);
        LowerTriExcMatrixArrayReader { reader, size, current_col: 0, mirror, columns }
    }

    /// reads the next column
    pub fn next(&mut self) -> (r: Option<Result<ParamatrizedMatrixArrayColumn<T>, Error>>)
        requires
            lower_tri_wf(old(self)@),
        ensures
            (column_result_view(r), final(self)@) == lower_exc_step::<T>(old(self)@),
            lower_tri_wf(final(self)@),
    {
        if self.current_col < self.size {
            self.current_col = self.current_col + 1;
            let mut vec = match self.columns.pop() {
                Some(v) => v,
                None => Vec::new(),
            };
            assert(cols_view(self.columns@) =~= old(self)@.pending.drop_last());
            vec.push(T::zero());
            let end = fill_below(&mut self.reader, &mut self.columns, &mut vec, self.mirror);
            match end {
                RunEnd::Failed(e) => Some(Err(e)),
                RunEnd::Exhausted => Some(Err(Error::InsufficientContent)),
                RunEnd::Complete => {
                    if vec.len() == self.size {
                        Some(Ok(ParamatrizedMatrixArrayColumn::from_vec(vec)))
                    } else {
                        // likely because of some earlier error preventing a field from being added
                        Some(Err(Error::GenericError))
                    }
                },
            }
        } else {
            None
        }
    }
}

} // verus!

verus! {

// ---------------------------------------------------------------------------
// coordinates
// ---------------------------------------------------------------------------
/// the state of a reader of a sparse matrix
pub struct CoordinateState<T> {
    pub lines: LinesState,
    pub num_rows: usize,
    pub num_cols: usize,
    /// the entry lines still to read
    pub num_left: usize,
    pub mirror: Option<Mirror>,
    /// the mirrored entry to hand out next
    pub buffer: Option<(Position, T)>,
}

/// A one-based index in `1..=bound`, from a token: the zero-based index.
pub open spec fn index_ok(t: Seq<u8>, bound: usize) -> bool {
    parse_usize_spec(t) matches Ok(v) && 1 <= v <= bound
}

/// What an entry line's tokens `t` give: `row col value...` with one-based
/// indices within the matrix; and the mirrored entry that follows it, for a
/// symmetry, when it is off the diagonal.
pub open spec fn entry_spec<T: crate::Field>(
    t: Seq<Seq<u8>>,
    num_rows: usize,
    num_cols: usize,
    mirror: Option<Mirror>,
) -> (Result<(Position, T), Error>, Option<(Position, T)>) {
    if t.len() < 1 {
        (Err(Error::InsufficientContent), None)
    } else if parse_usize_spec(t[0]) is Err {
        (Err(Error::IntError(parse_usize_spec(t[0])->Err_0)), None)
    } else if !index_ok(t[0], num_rows) {
        (Err(Error::MalformedContent), None)
    } else if t.len() < 2 {
        (Err(Error::InsufficientContent), None)
    } else if parse_usize_spec(t[1]) is Err {
        (Err(Error::IntError(parse_usize_spec(t[1])->Err_0)), None)
    } else if !index_ok(t[1], num_cols) {
        (Err(Error::MalformedContent), None)
    } else {
        let row = (parse_usize_spec(t[0])->Ok_0 - 1) as usize;
        let col = (parse_usize_spec(t[1])->Ok_0 - 1) as usize;
        match T::spec_read(t.skip(2)) {
            Err(e) => (Err(e), None),
            Ok(v) => (
                Ok((Position { row, col }, v)),
                match mirror {
                    Some(m) => if row != col {
                        Some((Position { row: col, col: row }, mirror_value(m, v)))
                    } else {
                        None
                    },
                    None => None,
                },
            ),
        }
    }
}

/// What the next entry of a sparse matrix is, and the state after it: a
/// mirrored entry waiting, else the entry of the next line, while entry lines
/// are left.
pub open spec fn coordinate_step<T: crate::Field>(s: CoordinateState<T>) -> (
    Option<Result<(Position, T), Error>>,
    CoordinateState<T>,
) {
    match s.buffer {
        Some(b) => (Some(Ok(b)), CoordinateState { buffer: None, ..s }),
        None => if s.num_left > 0 {
            let s1 = CoordinateState { num_left: (s.num_left - 1) as usize, ..s };
            match s.lines.current() {
                None => (Some(Err(Error::InsufficientContent)), s1),
                Some(Err(e)) => (Some(Err(e)), CoordinateState { lines: s.lines.advance(), ..s1 }),
                Some(Ok(line)) => {
                    let (r, b) = entry_spec::<T>(tokens(line), s.num_rows, s.num_cols, s.mirror);
                    (Some(r), CoordinateState { lines: s.lines.advance(), buffer: b, ..s1 })
                },
            }
        } else {
            (None, s)
        },
    }
}

/// reads a sparse matrix, one entry at a time
pub struct ParamatrizedMatrixCoordinateReader<T: crate::Field> {
    reader: TextLines,
    num_rows: usize,
    num_cols: usize,
    num_left: usize,
    mirror: Option<Mirror>,
    buffer: Option<(Position, T)>,
}

impl<T: crate::Field> View for ParamatrizedMatrixCoordinateReader<T> {
    type V = CoordinateState<T>;

    closed spec fn view(&self) -> CoordinateState<T> {
        CoordinateState {
            lines: self.reader@,
            num_rows: self.num_rows,
            num_cols: self.num_cols,
            num_left: self.num_left,
            mirror: self.mirror,
            buffer: self.buffer,
        }
    }
}

/// reads a one-based index within `1..=bound` from a token
fn read_index(t: &[u8], bound: usize) -> (r: Result<usize, Error>)
    ensures
        match parse_usize_spec(t@) {
            Err(k) => r == Err::<usize, Error>(Error::IntError(k)),
            Ok(v) => if index_ok(t@, bound) {
                r == Ok::<usize, Error>((v - 1) as usize)
            } else {
                r == Err::<usize, Error>(Error::MalformedContent)
            },
        },
{
    match parse_usize(t) {
        Err(k) => Err(Error::IntError(k)),
        Ok(v) => {
            // 0-indexing
            if v == 0 || v > bound {
                Err(Error::MalformedContent)
            } else {
                Ok(v - 1)
            }
        },
    }
}

fn read_entry<T: crate::Field>(
    t: &Vec<Vec<u8>>,
    num_rows: usize,
    num_cols: usize,
    mirror: Option<Mirror>,
) -> (r: (Result<(Position, T), Error>, Option<(Position, T)>))
    ensures
        r == entry_spec::<T>(views(t@), num_rows, num_cols, mirror),
{
    let ghost tv = views(t@);
    if t.len() < 1 {
        return (Err(Error::InsufficientContent), None);
    }
    assert(tv[0] == t@[0]@);
    let row = match read_index(t[0].as_slice(), num_rows) {
        Ok(r) => r,
        Err(e) => return (Err(e), None),
    };
    if t.len() < 2 {
        return (Err(Error::InsufficientContent), None);
    }
    assert(tv[1] == t@[1]@);
    let col = match read_index(t[1].as_slice(), num_cols) {
        Ok(c) => c,
        Err(e) => return (Err(e), None),
    };
    let (_, value_tokens) = t.as_slice().split_at(2);
    assert(views(value_tokens@) =~= tv.skip(2));
    let field = match T::read(value_tokens) {
        Ok(f) => f,
        Err(e) => return (Err(e), None),
    };
    let buffer = match mirror {
        // note: no correction for vals on diag for skew-symmetric
        Some(m) => if row != col {
            Some((Position { row: col, col: row }, m.apply(&field)))
        } else {
            None
        },
        None => None,
    };
    (Ok((Position { row, col }, field)), buffer)
}

impl<T: crate::Field> ParamatrizedMatrixCoordinateReader<T> {
    pub fn internal_new(
        reader: TextLines,
        num_rows: usize,
        num_cols: usize,
        num_left: usize,
        mirror: Option<Mirror>,
    ) -> (r: Self)
        ensures
            r@ == (CoordinateState::<T> {
                lines: reader@,
                num_rows,
                num_cols,
                num_left,
                mirror,
                buffer: None,
            }),
    {
        ParamatrizedMatrixCoordinateReader { reader, num_rows, num_cols, num_left, mirror, buffer: None }
    }

    /// reads the next entry (position and value)
    pub fn next(&mut self) -> (r: Option<Result<(Position, T), Error>>)
        ensures
            (r, final(self)@) == coordinate_step::<T>(old(self)@),
    {
        if self.buffer.is_some() {
            let b = self.buffer.take();
            return match b {
                Some(e) => Some(Ok(e)),
                None => None,
            };
        }
        if self.num_left > 0 {
            self.num_left = self.num_left - 1;
            match self.reader.next_tokens() {
                None => Some(Err(Error::InsufficientContent)),
                Some(Err(e)) => Some(Err(e)),
                Some(Ok(toks)) => {
                    let (r, b) = read_entry::<T>(&toks, self.num_rows, self.num_cols, self.mirror);
                    self.buffer = b;
                    Some(r)
                },
            }
        } else {
            None
        }
    }
}

} // verus!

verus! {

// ---------------------------------------------------------------------------
// readers chosen by the header
// ---------------------------------------------------------------------------
/// the state of a reader of a dense matrix
pub enum ArrayReaderState<T> {
    General(GeneralArrayState),
    LowerTriangleDiagonalInclusive(LowerTriState<T>),
    LowerTriangleDiagonalExclusive(LowerTriState<T>),
}

/// What the next column of a dense matrix is, and the state after it.
pub open spec fn array_step<T: crate::Field>(s: ArrayReaderState<T>) -> (
    Option<Result<Seq<T>, Error>>,
    ArrayReaderState<T>,
) {
    match s {
        ArrayReaderState::General(g) => {
            let (r, g2) = general_step::<T>(g);
            (r, ArrayReaderState::General(g2))
        },
        ArrayReaderState::LowerTriangleDiagonalInclusive(l) => {
            let (r, l2) = lower_inc_step::<T>(l);
            (r, ArrayReaderState::LowerTriangleDiagonalInclusive(l2))
        },
        ArrayReaderState::LowerTriangleDiagonalExclusive(l) => {
            let (r, l2) = lower_exc_step::<T>(l);
            (r, ArrayReaderState::LowerTriangleDiagonalExclusive(l2))
        },
    }
}

pub open spec fn array_state_wf<T>(s: ArrayReaderState<T>) -> bool {
    match s {
        ArrayReaderState::General(_) => true,
        ArrayReaderState::LowerTriangleDiagonalInclusive(l) => lower_tri_wf(l),
        ArrayReaderState::LowerTriangleDiagonalExclusive(l) => lower_tri_wf(l),
    }
}

/// How a dense matrix with a symmetry is read from its first entry line on:
/// all entries without symmetry; the lower triangle with the diagonal,
/// mirrored as is (symmetric) or conjugated (hermitian); the lower triangle
/// without the diagonal, mirrored inverted (skew-symmetric).
pub open spec fn array_start<T>(lines: LinesState, header: Header) -> ArrayReaderState<T> {
    let lower = |m: Mirror|
        LowerTriState::<T> {
            lines,
            size: header.num_cols,
            current_col: 0,
            mirror: m,
            pending: Seq::new(header.num_cols as nat, |i: int| Seq::<T>::empty()),
        };
    match header.symmetry {
        Symmetry::General => ArrayReaderState::General(
            GeneralArrayState {
                lines,
                num_rows: header.num_rows,
                current_col: 0,
                num_cols: header.num_cols,
            },
        ),
        Symmetry::Symmetric => ArrayReaderState::LowerTriangleDiagonalInclusive(
            lower(Mirror::Identity),
        ),
        Symmetry::Hermitian => ArrayReaderState::LowerTriangleDiagonalInclusive(
            lower(Mirror::Conjugate),
        ),
        Symmetry::SkewSymmetric => ArrayReaderState::LowerTriangleDiagonalExclusive(
            lower(Mirror::Inverse),
        ),
    }
}

/// reads a dense matrix, one column at a time, by its symmetry
pub enum ParamatrizedMatrixArrayReader<T: crate::Field> {
    General(GeneralMatrixArrayReader<T>),
    LowerTriangleDiagonalInclusive(LowerTriIncMatrixArrayReader<T>),
    LowerTriangleDiagonalExclusive(LowerTriExcMatrixArrayReader<T>),
}

impl<T: crate::Field> View for ParamatrizedMatrixArrayReader<T> {
    type V = ArrayReaderState<T>;

    open spec fn view(&self) -> ArrayReaderState<T> {
        match self {
            ParamatrizedMatrixArrayReader::General(r) => ArrayReaderState::General(r@),
            ParamatrizedMatrixArrayReader::LowerTriangleDiagonalInclusive(r) => {
                ArrayReaderState::LowerTriangleDiagonalInclusive(r@)
            },
            ParamatrizedMatrixArrayReader::LowerTriangleDiagonalExclusive(r) => {
                ArrayReaderState::LowerTriangleDiagonalExclusive(r@)
            },
        }
    }
}

impl<T: crate::Field> ParamatrizedMatrixArrayReader<T> {
    /// The reader of the entries of a dense matrix with the given header, from
    /// the lines that follow the header.
    pub fn new(lines: TextLines, header: &Header) -> (r: Self)
        ensures
            r@ == array_start::<T>(lines@, *header),
            array_state_wf(r@),
    {
        match header.symmetry {
            Symmetry::General => ParamatrizedMatrixArrayReader::General(
                GeneralMatrixArrayReader::internal_new(lines, header.num_rows, header.num_cols),
            ),
            Symmetry::Symmetric => ParamatrizedMatrixArrayReader::LowerTriangleDiagonalInclusive(
                LowerTriIncMatrixArrayReader::internal_new(lines, header.num_cols, Mirror::Identity),
            ),
            Symmetry::Hermitian => ParamatrizedMatrixArrayReader::LowerTriangleDiagonalInclusive(
                LowerTriIncMatrixArrayReader::internal_new(lines, header.num_cols, Mirror::Conjugate),
            ),
            Symmetry::SkewSymmetric => ParamatrizedMatrixArrayReader::LowerTriangleDiagonalExclusive(
                LowerTriExcMatrixArrayReader::internal_new(lines, header.num_cols, Mirror::Inverse),
            ),
        }
    }

    /// reads the next column
    pub fn next(&mut self) -> (r: Option<Result<ParamatrizedMatrixArrayColumn<T>, Error>>)
        requires
            array_state_wf(old(self)@),
        ensures
            (column_result_view(r), final(self)@) == array_step::<T>(old(self)@),
            array_state_wf(final(self)@),
    {
        match self {
            ParamatrizedMatrixArrayReader::General(inner) => inner.next(),
            ParamatrizedMatrixArrayReader::LowerTriangleDiagonalInclusive(inner) => inner.next(),
            ParamatrizedMatrixArrayReader::LowerTriangleDiagonalExclusive(inner) => inner.next(),
        }
    }
}

/// the mirrored entries of a sparse matrix with a symmetry
pub open spec fn coordinate_mirror(s: Symmetry) -> Option<Mirror> {
    match s {
        Symmetry::General => None,
        Symmetry::Symmetric => Some(Mirror::Identity),
        Symmetry::SkewSymmetric => Some(Mirror::Inverse),
        Symmetry::Hermitian => Some(Mirror::Conjugate),
    }
}

/// How a sparse matrix is read from its first entry line on: the announced
/// number of entry lines, each entry mirrored as the symmetry asks.
pub open spec fn coordinate_start<T>(lines: LinesState, header: Header) -> CoordinateState<T> {
    CoordinateState::<T> {
        lines,
        num_rows: header.num_rows,
        num_cols: header.num_cols,
        num_left: header.num_entries,
        mirror: coordinate_mirror(header.symmetry),
        buffer: None,
    }
}

impl<T: crate::Field> ParamatrizedMatrixCoordinateReader<T> {
    /// The reader of the entries of a sparse matrix with the given header, from
    /// the lines that follow the header.
    pub fn new(lines: TextLines, header: &Header) -> (r: Self)
        ensures
            r@ == coordinate_start::<T>(lines@, *header),
    {
        let mirror = match header.symmetry {
            Symmetry::General => None,
            Symmetry::Symmetric => Some(Mirror::Identity),
            Symmetry::SkewSymmetric => Some(Mirror::Inverse),
            Symmetry::Hermitian => Some(Mirror::Conjugate),
        };
        ParamatrizedMatrixCoordinateReader::internal_new(
            lines,
            header.num_rows,
            header.num_cols,
            header.num_entries,
            mirror,
        )
    }
}

} // verus!

verus! {

// ---------------------------------------------------------------------------
// readers of any field
// ---------------------------------------------------------------------------
/// a column result of one field, as a column result of any field
pub open spec fn lift_column<T, R, C>(
    res: Option<Result<Seq<T>, Error>>,
    f: spec_fn(T) -> FieldVal<R, C>,
) -> Option<Result<Seq<FieldVal<R, C>>, Error>> {
    match res {
        None => None,
        Some(Err(e)) => Some(Err(e)),
        Some(Ok(c)) => Some(Ok(c.map_values(f))),
    }
}

/// an entry result of one field, as an entry result of any field
pub open spec fn lift_entry<T, R, C>(
    res: Option<Result<(Position, T), Error>>,
    f: spec_fn(T) -> FieldVal<R, C>,
) -> Option<Result<(Position, FieldVal<R, C>), Error>> {
    match res {
        None => None,
        Some(Err(e)) => Some(Err(e)),
        Some(Ok(e)) => Some(Ok((e.0, f(e.1)))),
    }
}

/// one column of a dense matrix, of one of the fields
pub enum MatrixArrayColumn<R: crate::Field, C: crate::Field> {
    Real(ParamatrizedMatrixArrayColumn<R>),
    Integer(ParamatrizedMatrixArrayColumn<i64>),
    Complex(ParamatrizedMatrixArrayColumn<C>),
    // note: Pattern is not a valid field for the array format
}

impl<R: crate::Field, C: crate::Field> MatrixArrayColumn<R, C> {
    /// the field of the column
    pub open spec fn kind(&self) -> FieldKind {
        match self {
            MatrixArrayColumn::Real(_) => FieldKind::Real,
            MatrixArrayColumn::Integer(_) => FieldKind::Integer,
            MatrixArrayColumn::Complex(_) => FieldKind::Complex,
        }
    }

    /// the entries not handed out yet, from the top
    pub open spec fn rest(&self) -> Seq<FieldVal<R, C>> {
        match self {
            MatrixArrayColumn::Real(c) => c.rest().map_values(|v: R| FieldVal::<R, C>::Real(v)),
            MatrixArrayColumn::Integer(c) => c.rest().map_values(
                |v: i64| FieldVal::<R, C>::Integer(v),
            ),
            MatrixArrayColumn::Complex(c) => c.rest().map_values(
                |v: C| FieldVal::<R, C>::Complex(v),
            ),
        }
    }

    /// the next entry of the column
    pub fn next(&mut self) -> (r: Option<FieldVal<R, C>>)
        ensures
            final(self).kind() == old(self).kind(),
            old(self).rest().len() == 0 ==> r is None && final(self).rest() == old(self).rest(),
            old(self).rest().len() > 0 ==> r == Some(old(self).rest()[0]) && final(self).rest()
                == old(self).rest().drop_first(),
    {
        match self {
            MatrixArrayColumn::Real(inner) => {
                let ghost before = inner.rest();
                let r = inner.next();
                proof {
                    let f = |v: R| FieldVal::<R, C>::Real(v);
                    if before.len() > 0 {
                        assert(inner.rest().map_values(f) =~= before.map_values(f).drop_first());
                    }
                }
                match r {
                    Some(v) => Some(FieldVal::Real(v)),
                    None => None,
                }
            },
            MatrixArrayColumn::Integer(inner) => {
                let ghost before = inner.rest();
                let r = inner.next();
                proof {
                    let f = |v: i64| FieldVal::<R, C>::Integer(v);
                    if before.len() > 0 {
                        assert(inner.rest().map_values(f) =~= before.map_values(f).drop_first());
                    }
                }
                match r {
                    Some(v) => Some(FieldVal::Integer(v)),
                    None => None,
                }
            },
            MatrixArrayColumn::Complex(inner) => {
                let ghost before = inner.rest();
                let r = inner.next();
                proof {
                    let f = |v: C| FieldVal::<R, C>::Complex(v);
                    if before.len() > 0 {
                        assert(inner.rest().map_values(f) =~= before.map_values(f).drop_first());
                    }
                }
                match r {
                    Some(v) => Some(FieldVal::Complex(v)),
                    None => None,
                }
            },
        }
    }
}

/// the entries of a column result
pub open spec fn column_values<R: crate::Field, C: crate::Field>(
    r: Option<Result<MatrixArrayColumn<R, C>, Error>>,
) -> Option<Result<Seq<FieldVal<R, C>>, Error>> {
    match r {
        None => None,
        Some(Err(e)) => Some(Err(e)),
        Some(Ok(c)) => Some(Ok(c.rest())),
    }
}

/// reads a dense matrix of one of the fields, one column at a time
pub enum MatrixArrayReader<R: crate::Field, C: crate::Field> {
    Real(ParamatrizedMatrixArrayReader<R>),
    Integer(ParamatrizedMatrixArrayReader<i64>),
    Complex(ParamatrizedMatrixArrayReader<C>),
    // note: Pattern is not a valid field for the array format
}

impl<R: crate::Field, C: crate::Field> MatrixArrayReader<R, C> {
    /// the field of the matrix
    pub open spec fn kind(&self) -> FieldKind {
        match self {
            MatrixArrayReader::Real(_) => FieldKind::Real,
            MatrixArrayReader::Integer(_) => FieldKind::Integer,
            MatrixArrayReader::Complex(_) => FieldKind::Complex,
        }
    }

    pub open spec fn wf(&self) -> bool {
        match self {
            MatrixArrayReader::Real(x) => array_state_wf(x@),
            MatrixArrayReader::Integer(x) => array_state_wf(x@),
            MatrixArrayReader::Complex(x) => array_state_wf(x@),
        }
    }

    /// reads the next column
    pub fn next(&mut self) -> (r: Option<Result<MatrixArrayColumn<R, C>, Error>>)
        requires
            old(self).wf(),
        ensures
            final(self).wf(),
            final(self).kind() == old(self).kind(),
            r matches Some(Ok(c)) ==> c.kind() == old(self).kind(),
            match (*old(self), *final(self)) {
                (MatrixArrayReader::Real(a), MatrixArrayReader::Real(b)) => {
                    let (x, s) = array_step::<R>(a@);
                    column_values(r) == lift_column(x, |v: R| FieldVal::<R, C>::Real(v)) && b@
                        == s
                },
                (MatrixArrayReader::Integer(a), MatrixArrayReader::Integer(b)) => {
                    let (x, s) = array_step::<i64>(a@);
                    column_values(r) == lift_column(x, |v: i64| FieldVal::<R, C>::Integer(v))
                        && b@ == s
                },
                (MatrixArrayReader::Complex(a), MatrixArrayReader::Complex(b)) => {
                    let (x, s) = array_step::<C>(a@);
                    column_values(r) == lift_column(x, |v: C| FieldVal::<R, C>::Complex(v))
                        && b@ == s
                },
                _ => false,
            },
    {
        match self {
            MatrixArrayReader::Real(inner) => match inner.next() {
                None => None,
                Some(Err(e)) => Some(Err(e)),
                Some(Ok(col)) => Some(Ok(MatrixArrayColumn::Real(col))),
            },
            MatrixArrayReader::Integer(inner) => match inner.next() {
                None => None,
                Some(Err(e)) => Some(Err(e)),
                Some(Ok(col)) => Some(Ok(MatrixArrayColumn::Integer(col))),
            },
            MatrixArrayReader::Complex(inner) => match inner.next() {
                None => None,
                Some(Err(e)) => Some(Err(e)),
                Some(Ok(col)) => Some(Ok(MatrixArrayColumn::Complex(col))),
            },
        }
    }
}

} // verus!

verus! {

/// reads a sparse matrix of one of the fields, one entry at a time
pub enum MatrixCoordinateReader<R: crate::Field, C: crate::Field> {
    Real(ParamatrizedMatrixCoordinateReader<R>),
    Integer(ParamatrizedMatrixCoordinateReader<i64>),
    Complex(ParamatrizedMatrixCoordinateReader<C>),
    Pattern(ParamatrizedMatrixCoordinateReader<Pattern>),
}

impl<R: crate::Field, C: crate::Field> MatrixCoordinateReader<R, C> {
    /// the field of the matrix
    pub open spec fn kind(&self) -> FieldKind {
        match self {
            MatrixCoordinateReader::Real(_) => FieldKind::Real,
            MatrixCoordinateReader::Integer(_) => FieldKind::Integer,
            MatrixCoordinateReader::Complex(_) => FieldKind::Complex,
            MatrixCoordinateReader::Pattern(_) => FieldKind::Pattern,
        }
    }

    /// reads the next entry (position and value)
    pub fn next(&mut self) -> (r: Option<Result<(Position, FieldVal<R, C>), Error>>)
        ensures
            final(self).kind() == old(self).kind(),
            match (*old(self), *final(self)) {
                (MatrixCoordinateReader::Real(a), MatrixCoordinateReader::Real(b)) => {
                    let (x, s) = coordinate_step::<R>(a@);
                    r == lift_entry(x, |v: R| FieldVal::<R, C>::Real(v)) && b@ == s
                },
                (MatrixCoordinateReader::Integer(a), MatrixCoordinateReader::Integer(b)) => {
                    let (x, s) = coordinate_step::<i64>(a@);
                    r == lift_entry(x, |v: i64| FieldVal::<R, C>::Integer(v)) && b@ == s
                },
                (MatrixCoordinateReader::Complex(a), MatrixCoordinateReader::Complex(b)) => {
                    let (x, s) = coordinate_step::<C>(a@);
                    r == lift_entry(x, |v: C| FieldVal::<R, C>::Complex(v)) && b@ == s
                },
                (MatrixCoordinateReader::Pattern(a), MatrixCoordinateReader::Pattern(b)) => {
                    let (x, s) = coordinate_step::<Pattern>(a@);
                    r == lift_entry(x, |v: Pattern| FieldVal::<R, C>::Pattern(v)) && b@ == s
                },
                _ => false,
            },
    {
        match self {
            MatrixCoordinateReader::Real(inner) => match inner.next() {
                None => None,
                Some(Err(e)) => Some(Err(e)),
                Some(Ok((p, v))) => Some(Ok((p, FieldVal::Real(v)))),
            },
            MatrixCoordinateReader::Integer(inner) => match inner.next() {
                None => None,
                Some(Err(e)) => Some(Err(e)),
                Some(Ok((p, v))) => Some(Ok((p, FieldVal::Integer(v)))),
            },
            MatrixCoordinateReader::Complex(inner) => match inner.next() {
                None => None,
                Some(Err(e)) => Some(Err(e)),
                Some(Ok((p, v))) => Some(Ok((p, FieldVal::Complex(v)))),
            },
            MatrixCoordinateReader::Pattern(inner) => match inner.next() {
                None => None,
                Some(Err(e)) => Some(Err(e)),
                Some(Ok((p, v))) => Some(Ok((p, FieldVal::Pattern(v)))),
            },
        }
    }
}

/// reads a matrix, dense or sparse
pub enum MatrixReader<R: crate::Field, C: crate::Field> {
    MatrixArray(MatrixArrayReader<R, C>),
    MatrixCoordinate(MatrixCoordinateReader<R, C>),
}

impl<R: crate::Field, C: crate::Field> MatrixReader<R, C> {
    pub fn is_array(&self) -> (r: bool)
        ensures
            r == self is MatrixArray,
    {
        match self {
            MatrixReader::MatrixArray(..) => true,
            _ => false,
        }
    }

    pub fn is_coordinate(&self) -> (r: bool)
        ensures
            r == self is MatrixCoordinate,
    {
        match self {
            MatrixReader::MatrixCoordinate(..) => true,
            _ => false,
        }
    }

    pub fn array(self) -> (r: Option<MatrixArrayReader<R, C>>)
        ensures
            r == (match self {
                MatrixReader::MatrixArray(inner) => Some(inner),
                _ => None,
            }),
    {
        match self {
            MatrixReader::MatrixArray(inner) => Some(inner),
            _ => None,
        }
    }

    pub fn coordinate(self) -> (r: Option<MatrixCoordinateReader<R, C>>)
        ensures
            r == (match self {
                MatrixReader::MatrixCoordinate(inner) => Some(inner),
                _ => None,
            }),
    {
        match self {
            MatrixReader::MatrixCoordinate(inner) => Some(inner),
            _ => None,
        }
    }
}

/// reads a matrix market file
pub enum MtxReader<R: crate::Field, C: crate::Field> {
    Matrix(MatrixReader<R, C>),
    // note, this is an enum to extend for an extended format
}

impl<R: crate::Field, C: crate::Field> MtxReader<R, C> {
    /// The reader that a header chooses, at the first entry line `s`: an
    /// array or coordinate reader of the header's field, which reads by the
    /// header's symmetry.
    pub open spec fn starts(self, h: Header, s: LinesState) -> bool {
        match self {
            MtxReader::Matrix(MatrixReader::MatrixArray(a)) => {
                &&& h.format == MatrixFormat::Array
                &&& a.kind() == h.field
                &&& a.wf()
                &&& match a {
                    MatrixArrayReader::Real(x) => x@ == array_start::<R>(s, h),
                    MatrixArrayReader::Integer(x) => x@ == array_start::<i64>(s, h),
                    MatrixArrayReader::Complex(x) => x@ == array_start::<C>(s, h),
                }
            },
            MtxReader::Matrix(MatrixReader::MatrixCoordinate(c)) => {
                &&& h.format == MatrixFormat::Coordinate
                &&& c.kind() == h.field
                &&& match c {
                    MatrixCoordinateReader::Real(x) => x@ == coordinate_start::<R>(s, h),
                    MatrixCoordinateReader::Integer(x) => x@ == coordinate_start::<i64>(s, h),
                    MatrixCoordinateReader::Complex(x) => x@ == coordinate_start::<C>(s, h),
                    MatrixCoordinateReader::Pattern(x) => x@ == coordinate_start::<Pattern>(s, h),
                }
            },
        }
    }

    /// Reads the header of a matrix market file from its lines, and gives the
    /// reader of its entries that the header calls for. Real and complex
    /// numbers are read as `R` and `C`.
    ///
    /// note: .mtx is an ascii format and is case insensitive as a whole
    pub fn new_reader(lines: TextLines) -> (r: Result<Self, Error>)
        ensures
            match header_spec(lines@) {
                (Err(e), _) => r == Err::<Self, Error>(e),
                (Ok(h), s) => r matches Ok(m) && m.starts(h, s),
            },
    {
        let mut lines = lines;
        let header = match read_header(&mut lines) {
            Ok(h) => h,
            Err(e) => return Err(e),
        };
        match header.format {
            MatrixFormat::Array => {
                let reader = match header.field {
                    FieldKind::Real => MatrixArrayReader::Real(
                        ParamatrizedMatrixArrayReader::new(lines, &header),
                    ),
                    FieldKind::Integer => MatrixArrayReader::Integer(
                        ParamatrizedMatrixArrayReader::new(lines, &header),
                    ),
                    FieldKind::Complex => MatrixArrayReader::Complex(
                        ParamatrizedMatrixArrayReader::new(lines, &header),
                    ),
                    FieldKind::Pattern => return Err(Error::UnsupportedHeaderOptions),
                };
                Ok(MtxReader::Matrix(MatrixReader::MatrixArray(reader)))
            },
            MatrixFormat::Coordinate => {
                let reader = match header.field {
                    FieldKind::Real => MatrixCoordinateReader::Real(
                        ParamatrizedMatrixCoordinateReader::new(lines, &header),
                    ),
                    FieldKind::Integer => MatrixCoordinateReader::Integer(
                        ParamatrizedMatrixCoordinateReader::new(lines, &header),
                    ),
                    FieldKind::Complex => MatrixCoordinateReader::Complex(
                        ParamatrizedMatrixCoordinateReader::new(lines, &header),
                    ),
                    FieldKind::Pattern => MatrixCoordinateReader::Pattern(
                        ParamatrizedMatrixCoordinateReader::new(lines, &header),
                    ),
                };
                Ok(MtxReader::Matrix(MatrixReader::MatrixCoordinate(reader)))
            },
        }
    }

    pub fn is_matrix(&self) -> (r: bool)
        ensures
            r == self is Matrix,
    {
        match self {
            MtxReader::Matrix(..) => true,
        }
    }

    pub fn matrix(self) -> (r: Option<MatrixReader<R, C>>)
        ensures
            r == (match self {
                MtxReader::Matrix(inner) => Some(inner),
            }),
    {
        match self {
            MtxReader::Matrix(inner) => Some(inner),
        }
    }
}

} // verus!
