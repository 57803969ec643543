//! Writing matrix market files.
//!
//! The usage roughly looks like this:
//! 1. create the writer with [`MatrixWriter::new`]
//! 2. (optional) add a comment and or symmetry (through [`MatrixWriter::add_comment`]
//!    and [`MatrixWriter::add_symmetry`])
//! 3. consume the writer with [`MatrixWriter::write_array`] or
//!    [`MatrixWriter::write_coordinate`] based on the kind of matrix
use vstd::prelude::*;
use vstd::string::StringSliceAdditionalSpecFns;

use crate::reader::{MatrixFormat, format_name, matrix_name, supported};
use crate::text::{
    decimal, lemma_text_lines_no_lf, no_line_feed, push_decimal, split_lines, text_lines, views,
};
use crate::{Error, Field, FieldKind, Position, Symmetry, kind_name, symmetry_name};

verus! {

/// `%%MatrixMarket`
pub open spec fn banner_text() -> Seq<u8> {
    seq![
        0x25u8,
        0x25u8,
        0x4du8,
        0x61u8,
        0x74u8,
        0x72u8,
        0x69u8,
        0x78u8,
        0x4du8,
        0x61u8,
        0x72u8,
        0x6bu8,
        0x65u8,
        0x74u8,
    ]
}

/// the lines of a text joined, each followed by a line feed
pub open spec fn join_lines(ls: Seq<Seq<u8>>) -> Seq<u8>
    decreases ls.len(),
{
    if ls.len() == 0 {
        Seq::empty()
    } else {
        join_lines(ls.drop_last()) + ls.last() + seq![0x0au8]
    }
}

/// `%%MatrixMarket matrix format field symmetry`
pub open spec fn header_line(format: MatrixFormat, field: FieldKind, symmetry: Symmetry) -> Seq<u8> {
    banner_text() + seq![0x20u8] + matrix_name() + seq![0x20u8] + format_name(format) + seq![
        0x20u8,
    ] + kind_name(field) + seq![0x20u8] + symmetry_name(symmetry)
}

/// each comment line, after a `%`
pub open spec fn comment_lines(comment: Seq<Seq<u8>>) -> Seq<Seq<u8>> {
    comment.map_values(|l: Seq<u8>| seq![0x25u8] + l)
}

/// The lines of one comment, as `str::lines` gives them (split at each line
/// feed, a carriage return right before a line feed dropped, no line after a
/// final line feed); an empty comment is one empty line.
pub open spec fn comment_text_lines(c: Seq<u8>) -> Seq<Seq<u8>> {
    if c.len() == 0 {
        text_lines(c).push(Seq::empty())
    } else {
        text_lines(c)
    }
}

/// the numbers in decimal, separated by spaces
pub open spec fn numbers_line(ns: Seq<nat>) -> Seq<u8>
    decreases ns.len(),
{
    if ns.len() == 0 {
        Seq::empty()
    } else if ns.len() == 1 {
        decimal(ns[0])
    } else {
        numbers_line(ns.drop_last()) + seq![0x20u8] + decimal(ns.last())
    }
}

/// the first row of a column that an array file holds for a symmetry: the
/// whole column, from the diagonal, or below the diagonal
pub open spec fn first_row(symmetry: Symmetry, col: nat) -> nat {
    match symmetry {
        Symmetry::General => 0,
        Symmetry::Symmetric | Symmetry::Hermitian => col,
        Symmetry::SkewSymmetric => col + 1,
    }
}

/// the positions of a column that an array file holds, from the top
pub open spec fn column_positions(symmetry: Symmetry, num_rows: nat, col: nat) -> Seq<Position> {
    let first = first_row(symmetry, col);
    Seq::new(
        if first <= num_rows {
            (num_rows - first) as nat
        } else {
            0
        },
        |k: int| Position { row: (first + k) as usize, col: col as usize },
    )
}

/// the positions that an array file holds, column by column, for the first `num_cols` columns
pub open spec fn array_positions(symmetry: Symmetry, num_rows: nat, num_cols: nat) -> Seq<Position>
    decreases num_cols,
{
    if num_cols == 0 {
        Seq::empty()
    } else {
        array_positions(symmetry, num_rows, (num_cols - 1) as nat) + column_positions(
            symmetry,
            num_rows,
            (num_cols - 1) as nat,
        )
    }
}

/// a matrix given row by row, with `num_rows` rows of `num_cols` entries
pub open spec fn is_matrix<T>(m: Seq<Seq<T>>, num_rows: nat, num_cols: nat) -> bool {
    m.len() == num_rows && forall|r: int| 0 <= r < num_rows ==> #[trigger] m[r].len() == num_cols
}

/// the state of a writer
pub struct WriterState {
    pub symmetry: Symmetry,
    pub num_rows: usize,
    pub num_cols: usize,
    /// the lines of the comments added, in order
    pub comment: Seq<Seq<u8>>,
}

/// A writer state as the writer keeps it: a symmetry other than general only
/// on a square matrix, and comment lines without line feeds.
pub open spec fn writer_wf(w: WriterState) -> bool {
    &&& w.symmetry != Symmetry::General ==> w.num_rows == w.num_cols
    &&& forall|i: int| 0 <= i < w.comment.len() ==> no_line_feed(#[trigger] w.comment[i])
}

/// The lines before the entries: the header line, the comment lines and the
/// content header line.
pub open spec fn preamble_lines(
    w: WriterState,
    format: MatrixFormat,
    field: FieldKind,
    sizes: Seq<nat>,
) -> Seq<Seq<u8>> {
    seq![header_line(format, field, w.symmetry)] + comment_lines(w.comment) + seq![
        numbers_line(sizes),
    ]
}

/// The lines of an array file of the matrix `m` (given row by row): the
/// entries that the symmetry keeps, column by column, one per line.
pub open spec fn array_lines<T: Field>(w: WriterState, m: Seq<Seq<T>>) -> Seq<Seq<u8>> {
    preamble_lines(
        w,
        MatrixFormat::Array,
        T::spec_kind(),
        seq![w.num_rows as nat, w.num_cols as nat],
    ) + entry_texts(m, array_positions(w.symmetry, w.num_rows as nat, w.num_cols as nat))
}

/// the texts of the entries of a matrix at the positions
pub open spec fn entry_texts<T: Field>(m: Seq<Seq<T>>, ps: Seq<Position>) -> Seq<Seq<u8>> {
    ps.map_values(|p: Position| entry_text(m, p))
}

/// the text of the entry of a matrix at a position
pub open spec fn entry_text<T: Field>(m: Seq<Seq<T>>, p: Position) -> Seq<u8> {
    T::spec_write(m[p.row as int][p.col as int])
}

/// an entry line of a coordinate file: one-based row and column, then the value
pub open spec fn coordinate_line<T: Field>(p: Position, v: T) -> Seq<u8> {
    decimal((p.row + 1) as nat) + seq![0x20u8] + decimal((p.col + 1) as nat) + seq![0x20u8]
        + T::spec_write(v)
}

/// The lines of a coordinate file of the entries `coords`, of which
/// `num_entries` are announced.
pub open spec fn coordinate_lines<T: Field>(
    w: WriterState,
    coords: Seq<(Position, T)>,
    num_entries: usize,
) -> Seq<Seq<u8>> {
    preamble_lines(
        w,
        MatrixFormat::Coordinate,
        T::spec_kind(),
        seq![w.num_rows as nat, w.num_cols as nat, num_entries as nat],
    ) + coordinate_texts(coords)
}

/// the entry lines of a coordinate file
pub open spec fn coordinate_texts<T: Field>(coords: Seq<(Position, T)>) -> Seq<Seq<u8>> {
    coords.map_values(|e: (Position, T)| coordinate_entry_line(e))
}

pub open spec fn coordinate_entry_line<T: Field>(e: (Position, T)) -> Seq<u8> {
    coordinate_line(e.0, e.1)
}

/// a struct to help with writing a matrix to a .mtx file
pub struct MatrixWriter {
    symmetry: Symmetry,
    num_rows: usize,
    num_cols: usize,
    comment: Vec<Vec<u8>>,
}

impl View for MatrixWriter {
    type V = WriterState;

    closed spec fn view(&self) -> WriterState {
        WriterState {
            symmetry: self.symmetry,
            num_rows: self.num_rows,
            num_cols: self.num_cols,
            comment: views(self.comment@),
        }
    }
}

fn banner_str() -> (s: &'static str)
    ensures
        s.spec_bytes() == banner_text(),
{
    let s = "%%MatrixMarket";
    proof {
        reveal_strlit("%%MatrixMarket");
        vstd::string::is_ascii_spec_bytes(s);
    }
    assert(s.spec_bytes() =~= banner_text());
    s
}

fn matrix_str() -> (s: &'static str)
    ensures
        s.spec_bytes() == matrix_name(),
{
    let s = "matrix";
    proof {
        reveal_strlit("matrix");
        vstd::string::is_ascii_spec_bytes(s);
    }
    assert(s.spec_bytes() =~= matrix_name());
    s
}

fn push_bytes(out: &mut Vec<u8>, s: &[u8])
    ensures
        final(out)@ == old(out)@ + s@,
{
    let mut i: usize = 0;
    while i < s.len()
        invariant
            0 <= i <= s.len(),
            out@ =~= old(out)@ + s@.take(i as int),
        decreases s.len() - i,
    {
        out.push(s[i]);
        i = i + 1;
    }
    assert(s@.take(i as int) =~= s@);
}

/// appends a line and its line feed
fn push_line(out: &mut Vec<u8>, line: &[u8], Ghost(ls): Ghost<Seq<Seq<u8>>>)
    requires
        old(out)@ == join_lines(ls),
    ensures
        final(out)@ == join_lines(ls.push(line@)),
{
    push_bytes(out, line);
    out.push(0x0a);
    assert(ls.push(line@).drop_last() =~= ls);
    assert(final(out)@ =~= join_lines(ls.push(line@)));
}

pub proof fn lemma_join_append(a: Seq<Seq<u8>>, b: Seq<Seq<u8>>)
    ensures
        join_lines(a + b) == join_lines(a) + join_lines(b),
    decreases b.len(),
{
    if b.len() == 0 {
        assert(a + b =~= a);
        assert(join_lines(a) + join_lines(b) =~= join_lines(a));
    } else {
        lemma_join_append(a, b.drop_last());
        assert((a + b).drop_last() =~= a + b.drop_last());
        assert(join_lines(a + b) =~= join_lines(a) + join_lines(b));
    }
}

/// The positions of the entries that an array file holds, in the order in
/// which they are written: column by column, each column from the first row
/// that the symmetry keeps (every row, the diagonal, or below the diagonal).
pub fn written_positions(symmetry: Symmetry, num_rows: usize, num_cols: usize) -> (r: Vec<
    Position,
>)
    ensures
        r@ == array_positions(symmetry, num_rows as nat, num_cols as nat),
{
    let mut out: Vec<Position> = Vec::new();
    let mut col: usize = 0;
    assert(out@ =~= array_positions(symmetry, num_rows as nat, 0));
    while col < num_cols
        invariant
            0 <= col <= num_cols,
            out@ == array_positions(symmetry, num_rows as nat, col as nat),
        decreases num_cols - col,
    {
        let first: usize = match symmetry {
            Symmetry::General => 0,
            Symmetry::Symmetric | Symmetry::Hermitian => col,
            Symmetry::SkewSymmetric => col + 1,
        };
        let ghost cp = column_positions(symmetry, num_rows as nat, col as nat);
        let ghost before = out@;
        let mut row: usize = first;
        while row < num_rows
            invariant
                first <= row <= num_rows || (first > num_rows && row == first),
                first == first_row(symmetry, col as nat),
                col < num_cols,
                cp == column_positions(symmetry, num_rows as nat, col as nat),
                before == array_positions(symmetry, num_rows as nat, col as nat),
                out@ == before + cp.take((row - first) as int),
            decreases num_rows - row,
        {
            proof {
                assert(cp[(row - first) as int] == Position { row, col });
            }
            out.push(Position { row, col });
            assert(out@ =~= before + cp.take((row - first + 1) as int));
            row = row + 1;
        }
        proof {
            assert(cp.take((row - first) as int) =~= cp);
        }
        col = col + 1;
    }
    out
}

impl MatrixWriter {
    /// create a new [`MatrixWriter`] with no symmetry (which is
    /// [`Symmetry::General`]) and no comment
    pub fn new(num_rows: usize, num_cols: usize) -> (r: MatrixWriter)
        ensures
            r@ == (WriterState {
                symmetry: Symmetry::General,
                num_rows,
                num_cols,
                comment: Seq::empty(),
            }),
            writer_wf(r@),
    {
        let r = MatrixWriter { symmetry: Symmetry::General, num_rows, num_cols, comment: Vec::new() };
        assert(views(r.comment@) =~= Seq::<Seq<u8>>::empty());
        r
    }

    /// the symmetry of this writer
    pub fn symmetry(&self) -> (r: Symmetry)
        ensures
            r == self@.symmetry,
    {
        self.symmetry
    }

    /// sets the symmetry of this [`MatrixWriter`]
    ///
    /// A symmetry other than [`Symmetry::General`] needs a square matrix.
    /// Whether the symmetry fits the field and format that are eventually
    /// used is only checked in the consuming methods, not here.
    pub fn add_symmetry(&mut self, symmetry: Symmetry) -> (r: Result<(), Error>)
        ensures
            symmetry != Symmetry::General && old(self)@.num_rows != old(self)@.num_cols ==> r
                == Err::<(), Error>(Error::NotSquare) && final(self)@ == old(self)@,
            !(symmetry != Symmetry::General && old(self)@.num_rows != old(self)@.num_cols) ==> r
                == Ok::<(), Error>(()) && final(self)@ == (WriterState { symmetry, ..old(self)@ }),
            writer_wf(old(self)@) ==> writer_wf(final(self)@),
    {
        if symmetry != Symmetry::General {
            if self.num_rows != self.num_cols {
                return Err(Error::NotSquare);
            }
        }
        self.symmetry = symmetry;
        Ok(())
    }

    /// adds one line of comment to be written with the matrix
    ///
    /// This method can be called multiple times to add multiple separate lines of text.
    /// Additionally, if the comment string contains multiple lines, each line will correspondingly
    /// be on its own line. The comment lines are placed right after the header line, each
    /// preceded by a `%`.
    pub fn add_comment(&mut self, comment: &str) -> (r: Result<(), Error>)
        ensures
            r == Ok::<(), Error>(()),
            final(self)@ == (WriterState {
                comment: old(self)@.comment + comment_text_lines(comment.spec_bytes()),
                ..old(self)@
            }),
            writer_wf(old(self)@) ==> writer_wf(final(self)@),
    {
        let bytes = comment.as_bytes();
        let mut lines = split_lines(bytes);
        let ghost before = self.comment@;
        if bytes.len() == 0 {
            let ghost ls = lines@;
            lines.push(Vec::new());
            assert(views(lines@) =~= views(ls).push(Seq::<u8>::empty()));
        }
        assert(views(lines@) == comment_text_lines(comment.spec_bytes()));
        self.comment.append(&mut lines);
        assert(views(self.comment@) =~= views(before) + comment_text_lines(comment.spec_bytes()));
        proof {
            lemma_text_lines_no_lf(comment.spec_bytes());
            let n = views(before).len();
            let c = comment_text_lines(comment.spec_bytes());
            assert forall|i: int| 0 <= i < c.len() implies no_line_feed(#[trigger] c[i]) by {
                if i < text_lines(comment.spec_bytes()).len() {
                    assert(c[i] == text_lines(comment.spec_bytes())[i]);
                }
            }
            if writer_wf(old(self)@) {
                assert forall|i: int| 0 <= i < final(self)@.comment.len() implies no_line_feed(
                    #[trigger] final(self)@.comment[i],
                ) by {
                    if i >= n {
                        assert(final(self)@.comment[i] == c[i - n]);
                    } else {
                        assert(final(self)@.comment[i] == old(self)@.comment[i]);
                    }
                }
            }
        }
        Ok(())
    }

    /// appends the header line, the comment lines and the content header line
    fn write_preamble(
        &self,
        out: &mut Vec<u8>,
        format: MatrixFormat,
        field: FieldKind,
        sizes: &Vec<usize>,
    )
        requires
            sizes.len() >= 2,
        ensures
            final(out)@ == old(out)@ + join_lines(
                preamble_lines(self@, format, field, sizes@.map_values(|n: usize| n as nat)),
            ),
    {
        let ghost ns = sizes@.map_values(|n: usize| n as nat);
        let mut text: Vec<u8> = Vec::new();
        // the header line
        let mut line: Vec<u8> = Vec::new();
        push_bytes(&mut line, banner_str().as_bytes());
        line.push(0x20);
        push_bytes(&mut line, matrix_str().as_bytes());
        line.push(0x20);
        push_bytes(&mut line, format.as_string().as_bytes());
        line.push(0x20);
        push_bytes(&mut line, field.as_string().as_bytes());
        line.push(0x20);
        push_bytes(&mut line, self.symmetry.as_string().as_bytes());
        assert(line@ =~= header_line(format, field, self.symmetry));
        assert(join_lines(Seq::<Seq<u8>>::empty()) =~= text@);
        push_line(&mut text, line.as_slice(), Ghost(Seq::empty()));
        let ghost done = seq![header_line(format, field, self.symmetry)];
        assert(Seq::<Seq<u8>>::empty().push(line@) =~= done);
        // the comment lines
        let lines = &self.comment;
        let ghost cl = comment_lines(self@.comment);
        let mut i: usize = 0;
        while i < lines.len()
            invariant
                0 <= i <= lines.len(),
                views(lines@) == self@.comment,
                cl == comment_lines(self@.comment),
                text@ == join_lines(done + cl.take(i as int)),
            decreases lines.len() - i,
        {
            let mut cline: Vec<u8> = Vec::new();
            cline.push(0x25);
            push_bytes(&mut cline, lines[i].as_slice());
            assert(views(lines@)[i as int] == lines@[i as int]@);
            assert(cline@ =~= cl[i as int]);
            push_line(&mut text, cline.as_slice(), Ghost(done + cl.take(i as int)));
            assert((done + cl.take(i as int)).push(cline@) =~= done + cl.take(i + 1));
            i = i + 1;
        }
        assert(cl.take(i as int) =~= cl);
        // the content header line
        let mut sline: Vec<u8> = Vec::new();
        let mut k: usize = 0;
        while k < sizes.len()
            invariant
                0 <= k <= sizes.len(),
                ns == sizes@.map_values(|n: usize| n as nat),
                sline@ == numbers_line(ns.take(k as int)),
            decreases sizes.len() - k,
        {
            if k > 0 {
                sline.push(0x20);
            }
            push_decimal(&mut sline, sizes[k] as u128);
            proof {
                let t = ns.take(k + 1);
                assert(t.drop_last() =~= ns.take(k as int));
                assert(t.last() == sizes@[k as int] as nat);
                if k == 0 {
                    assert(ns.take(0) =~= Seq::<nat>::empty());
                    assert(sline@ =~= numbers_line(t));
                } else {
                    assert(sline@ =~= numbers_line(t));
                }
            }
            k = k + 1;
        }
        assert(ns.take(k as int) =~= ns);
        push_line(&mut text, sline.as_slice(), Ghost(done + cl));
        assert((done + cl).push(sline@) =~= preamble_lines(self@, format, field, ns));
        push_bytes(out, text.as_slice());
    }

    /// consume this writer to write a matrix formatted as an array (ie. dense matrix)
    ///
    /// `matrix` holds the matrix row by row. Based on the symmetry, only the
    /// entries on and below the diagonal (or only below it) are written. This
    /// writer makes no attempt at validating the symmetry.
    ///
    /// Importantly, not every combination of symmetry and field is valid: a
    /// pattern field cannot be written as an array, and only complex numbers
    /// can be hermitian. On success, the text of the file is appended to `out`.
    pub fn write_array<T: Field>(self, out: &mut Vec<u8>, matrix: &Vec<Vec<T>>) -> (r: Result<
        (),
        Error,
    >)
        requires
            is_matrix(cols_view(matrix@), self@.num_rows as nat, self@.num_cols as nat),
        ensures
            !supported(MatrixFormat::Array, T::spec_kind(), self@.symmetry) ==> r == Err::<
                (),
                Error,
            >(Error::UnsupportedHeaderOptions) && final(out)@ == old(out)@,
            supported(MatrixFormat::Array, T::spec_kind(), self@.symmetry) ==> r == Ok::<
                (),
                Error,
            >(()) && final(out)@ == old(out)@ + join_lines(
                array_lines::<T>(self@, cols_view(matrix@)),
            ),
    {
        let kind = T::kind();
        if kind == FieldKind::Pattern {
            return Err(Error::UnsupportedHeaderOptions);
        }
        if self.symmetry == Symmetry::Hermitian && kind != FieldKind::Complex {
            return Err(Error::UnsupportedHeaderOptions);
        }
        let mut sizes: Vec<usize> = Vec::new();
        sizes.push(self.num_rows);
        sizes.push(self.num_cols);
        assert(sizes@.map_values(|n: usize| n as nat) =~= seq![
            self.num_rows as nat,
            self.num_cols as nat,
        ]);
        let mut text: Vec<u8> = Vec::new();
        self.write_preamble(&mut text, MatrixFormat::Array, kind, &sizes);
        assert(text@ =~= join_lines(
            preamble_lines(
                self@,
                MatrixFormat::Array,
                kind,
                seq![self.num_rows as nat, self.num_cols as nat],
            ),
        ));
        let ghost mv = cols_view(matrix@);
        let ghost pre = preamble_lines(
            self@,
            MatrixFormat::Array,
            kind,
            seq![self.num_rows as nat, self.num_cols as nat],
        );
        let mut col: usize = 0;
        assert(pre + entry_texts(mv, array_positions(self.symmetry, self.num_rows as nat, 0))
            =~= pre);
        while col < self.num_cols
            invariant
                0 <= col <= self.num_cols,
                mv == cols_view(matrix@),
                is_matrix(mv, self.num_rows as nat, self.num_cols as nat),
                text@ == join_lines(
                    pre + entry_texts(
                        mv,
                        array_positions(self.symmetry, self.num_rows as nat, col as nat),
                    ),
                ),
            decreases self.num_cols - col,
        {
            let first: usize = match self.symmetry {
                Symmetry::General => 0,
                Symmetry::Symmetric | Symmetry::Hermitian => col,
                Symmetry::SkewSymmetric => col + 1,
            };
            let ghost before = pre + entry_texts(
                mv,
                array_positions(self.symmetry, self.num_rows as nat, col as nat),
            );
            let ghost cp = column_positions(self.symmetry, self.num_rows as nat, col as nat);
            let mut row: usize = first;
            while row < self.num_rows
                invariant
                    first <= row <= self.num_rows || (first > self.num_rows && row == first),
                    first == first_row(self.symmetry, col as nat),
                    col < self.num_cols,
                    mv == cols_view(matrix@),
                    is_matrix(mv, self.num_rows as nat, self.num_cols as nat),
                    cp == column_positions(self.symmetry, self.num_rows as nat, col as nat),
                    before == pre + entry_texts(
                        mv,
                        array_positions(self.symmetry, self.num_rows as nat, col as nat),
                    ),
                    text@ == join_lines(before + entry_texts(mv, cp.take((row - first) as int))),
                decreases self.num_rows - row,
            {
                assert(mv[row as int] == matrix@[row as int]@);
                assert(mv[row as int].len() == self.num_cols);
                let v = matrix[row][col];
                assert(v == mv[row as int][col as int]);
                let field_text = v.write();
                let ghost done = before + entry_texts(mv, cp.take((row - first) as int));
                push_line(&mut text, field_text.as_slice(), Ghost(done));
                proof {
                    assert(cp[(row - first) as int] == Position { row, col });
                    assert(field_text@ == entry_text(mv, Position { row, col }));
                    assert(done.push(field_text@) =~= before + entry_texts(
                        mv,
                        cp.take((row - first + 1) as int),
                    ));
                }
                row = row + 1;
            }
            proof {
                if first <= self.num_rows {
                    assert(cp.take((row - first) as int) =~= cp);
                } else {
                    assert(cp.len() == 0);
                    assert(cp.take((row - first) as int) =~= cp);
                }
                let next = array_positions(self.symmetry, self.num_rows as nat, (col + 1) as nat);
                assert(next =~= array_positions(self.symmetry, self.num_rows as nat, col as nat)
                    + cp);
                assert(before + entry_texts(mv, cp) =~= pre + entry_texts(mv, next));
            }
            col = col + 1;
        }
        push_bytes(out, text.as_slice());
        Ok(())
    }

    /// consume this writer to write a matrix formatted as coordinate (ie. sparse matrix)
    ///
    /// `coords` are the non-zero entries of the sparse matrix. `num_to_read`
    /// is the number of entries to be written, and to be read back.
    ///
    /// Importantly, this writer makes no attempt that the set of coords are
    /// correct/reasonable: there are no checks against duplicate coords (or
    /// symmetrical coords with a symmetry) or coords on the diagonal with
    /// [`Symmetry::SkewSymmetric`]. Not every combination of symmetry and
    /// field is valid: a pattern field is only general or symmetric, and only
    /// complex numbers can be hermitian.
    ///
    /// The text is appended to `out`. When `coords` holds fewer than
    /// `num_to_read` entries, the text up to the last of them is appended and
    /// the result is [`Error::InsufficientContent`].
    pub fn write_coordinate<T: Field>(
        self,
        out: &mut Vec<u8>,
        coords: &Vec<(Position, T)>,
        num_to_read: usize,
    ) -> (r: Result<(), Error>)
        ensures
            !supported(MatrixFormat::Coordinate, T::spec_kind(), self@.symmetry) ==> r == Err::<
                (),
                Error,
            >(Error::UnsupportedHeaderOptions) && final(out)@ == old(out)@,
            supported(MatrixFormat::Coordinate, T::spec_kind(), self@.symmetry) && num_to_read
                <= coords@.len() ==> r == Ok::<(), Error>(()) && final(out)@ == old(out)@
                + join_lines(
                coordinate_lines::<T>(self@, coords@.take(num_to_read as int), num_to_read),
            ),
            supported(MatrixFormat::Coordinate, T::spec_kind(), self@.symmetry) && num_to_read
                > coords@.len() ==> r == Err::<(), Error>(Error::InsufficientContent)
                && final(out)@ == old(out)@ + join_lines(
                coordinate_lines::<T>(self@, coords@, num_to_read),
            ),
    {
        let kind = T::kind();
        if kind == FieldKind::Pattern && self.symmetry != Symmetry::General && self.symmetry
            != Symmetry::Symmetric {
            return Err(Error::UnsupportedHeaderOptions);
        }
        if self.symmetry == Symmetry::Hermitian && kind != FieldKind::Complex {
            return Err(Error::UnsupportedHeaderOptions);
        }
        let mut sizes: Vec<usize> = Vec::new();
        sizes.push(self.num_rows);
        sizes.push(self.num_cols);
        sizes.push(num_to_read);
        let ghost ns = seq![self.num_rows as nat, self.num_cols as nat, num_to_read as nat];
        assert(sizes@.map_values(|n: usize| n as nat) =~= ns);
        let ghost pre = preamble_lines(self@, MatrixFormat::Coordinate, kind, ns);
        let mut text: Vec<u8> = Vec::new();
        self.write_preamble(&mut text, MatrixFormat::Coordinate, kind, &sizes);
        assert(text@ =~= join_lines(pre));
        let mut i: usize = 0;
        assert(pre + coordinate_texts(coords@.take(0)) =~= pre);
        while i < num_to_read
            invariant
                0 <= i <= num_to_read,
                i <= coords@.len(),
                out@ == old(out)@,
                supported(MatrixFormat::Coordinate, T::spec_kind(), self@.symmetry),
                ns == seq![self.num_rows as nat, self.num_cols as nat, num_to_read as nat],
                pre == preamble_lines(self@, MatrixFormat::Coordinate, T::spec_kind(), ns),
                text@ == join_lines(pre + coordinate_texts(coords@.take(i as int))),
            decreases num_to_read - i,
        {
            if i >= coords.len() {
                // mildly odd error but its fine
                assert(coords@.take(i as int) =~= coords@);
                push_bytes(out, text.as_slice());
                return Err(Error::InsufficientContent);
            }
            let (p, field) = coords[i];
            let mut line: Vec<u8> = Vec::new();
            // make sure to 1-index these
            push_decimal(&mut line, (p.row as u128) + 1);
            line.push(0x20);
            push_decimal(&mut line, (p.col as u128) + 1);
            line.push(0x20);
            let ft = field.write();
            push_bytes(&mut line, ft.as_slice());
            let ghost done = pre + coordinate_texts(coords@.take(i as int));
            proof {
                assert(coords@[i as int] == (p, field));
                assert(line@ =~= coordinate_line(p, field));
                assert(done.push(line@) =~= pre + coordinate_texts(coords@.take(i + 1)));
            }
            push_line(&mut text, line.as_slice(), Ghost(done));
            i = i + 1;
        }
        push_bytes(out, text.as_slice());
        Ok(())
    }
}

/// the views of the rows of a matrix
pub open spec fn cols_view<T>(m: Seq<Vec<T>>) -> Seq<Seq<T>> {
    m.map_values(|x: Vec<T>| x@)
}

} // verus!
