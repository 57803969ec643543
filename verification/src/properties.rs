//! What holds of the library as a whole: a file that the writer produces is
//! read back as the matrix that was written; every header that is read is one
//! that the format allows, in any case; every entry and column that a reader
//! gives fits the matrix; and the text that the writer produces is ASCII.
use vstd::prelude::*;

use crate::reader::{
    ArrayReaderState, CoordinateState, coordinate_start, GeneralArrayState, Header, LinesState, LowerTriState,
    MatrixFormat, Mirror, RunEnd, array_start, array_step, banner_name, content_header_spec,
    coordinate_mirror, coordinate_step, entry_spec, format_from_name, format_name, general_step,
    header_spec, index_ok, is_comment, kind_from_name, lower_exc_step, lower_fill, lower_inc_step,
    lower_tri_wf, matrix_name, mirror_into, mirror_value, read_run, skip_comments,
    symmetry_from_name, supported,
};
use crate::text::{
    decimal, i64_text, is_ascii_ws, is_digit, lemma_i64_roundtrip, lemma_line_len_exact, line_len,
    lemma_decimal_digits, lemma_line_len_bound, lemma_tokens_cons, lemma_tokens_single,
    lemma_usize_roundtrip, lower_byte, lowercase, no_line_feed, parse_usize_spec, strip_cr,
    text_lines, tokens,
};
use crate::writer::{
    WriterState, array_lines, array_positions, banner_text, column_positions, comment_lines,
    coordinate_line, coordinate_lines, coordinate_texts, entry_text, entry_texts, first_row,
    comment_text_lines, header_line, is_matrix, join_lines, lemma_join_append, numbers_line,
    preamble_lines, writer_wf,
};
use crate::{Error, Field, FieldKind, Position, Symmetry, kind_name, symmetry_name};
use crate::text::IntErrorKind;

verus! {

// ---------------------------------------------------------------------------
// lines of a written text
// ---------------------------------------------------------------------------

/// Splitting lines joined by line feeds gives them back (without a
/// carriage return at their end).
pub proof fn lemma_lines_of_joined(ls: Seq<Seq<u8>>)
    requires
        forall|i: int| 0 <= i < ls.len() ==> no_line_feed(#[trigger] ls[i]),
    ensures
        text_lines(join_lines(ls)) == ls.map_values(|l: Seq<u8>| strip_cr(l)),
    decreases ls.len(),
{
    if ls.len() == 0 {
        assert(text_lines(join_lines(ls)) =~= ls.map_values(|l: Seq<u8>| strip_cr(l)));
    } else {
        let l = ls[0];
        let rest = ls.drop_first();
        assert(ls =~= seq![l] + rest);
        lemma_join_append(seq![l], rest);
        assert(seq![l].drop_last() =~= Seq::<Seq<u8>>::empty());
        assert(join_lines(Seq::<Seq<u8>>::empty()) == Seq::<u8>::empty());
        assert(seq![l].last() == l);
        assert(join_lines(seq![l]) =~= l + seq![0x0au8]);
        let x = join_lines(rest);
        let s = l + seq![0x0au8] + x;
        assert(join_lines(ls) =~= s);
        assert(no_line_feed(l));
        assert forall|k: int| 0 <= k < l.len() implies #[trigger] s[k] != 0x0a by {
            assert(s[k] == l[k]);
        }
        assert(s[l.len() as int] == 0x0au8);
        lemma_line_len_exact(s, l.len() as int);
        assert(s.take(l.len() as int) =~= l);
        assert(s.skip(l.len() as int + 1) =~= x);
        assert forall|i: int| 0 <= i < rest.len() implies no_line_feed(#[trigger] rest[i]) by {
            assert(rest[i] == ls[i + 1]);
        }
        lemma_lines_of_joined(rest);
        assert(text_lines(s) == seq![strip_cr(l)] + text_lines(x));
        assert(text_lines(join_lines(ls)) =~= ls.map_values(|l: Seq<u8>| strip_cr(l)));
    }
}

} // verus!

verus! {

/// a word of a header: not empty, no whitespace, no line ending, no upper case
pub open spec fn plain_word(s: Seq<u8>) -> bool {
    &&& s.len() > 0
    &&& forall|k: int|
        0 <= k < s.len() ==> !is_ascii_ws(#[trigger] s[k]) && lower_byte(s[k]) == s[k]
}

proof fn lemma_names_plain()
    ensures
        plain_word(banner_name()),
        plain_word(matrix_name()),
        forall|f: MatrixFormat| plain_word(#[trigger] format_name(f)),
        forall|k: FieldKind| plain_word(#[trigger] kind_name(k)),
        forall|s: Symmetry| plain_word(#[trigger] symmetry_name(s)),
{
    assert(plain_word(banner_name()));
    assert(plain_word(matrix_name()));
    assert(plain_word(format_name(MatrixFormat::Array)));
    assert(plain_word(format_name(MatrixFormat::Coordinate)));
    assert(plain_word(kind_name(FieldKind::Real)));
    assert(plain_word(kind_name(FieldKind::Integer)));
    assert(plain_word(kind_name(FieldKind::Complex)));
    assert(plain_word(kind_name(FieldKind::Pattern)));
    assert(plain_word(symmetry_name(Symmetry::General)));
    assert(plain_word(symmetry_name(Symmetry::Symmetric)));
    assert(plain_word(symmetry_name(Symmetry::SkewSymmetric)));
    assert(plain_word(symmetry_name(Symmetry::Hermitian)));
}

} // verus!

verus! {

proof fn lemma_names_read_back(f: MatrixFormat, k: FieldKind, s: Symmetry)
    ensures
        format_from_name(format_name(f)) == Some(f),
        kind_from_name(kind_name(k)) == Some(k),
        symmetry_from_name(symmetry_name(s)) == Some(s),
        banner_name() != format_name(f),
        matrix_name() != format_name(MatrixFormat::Array),
{
    assert(format_name(MatrixFormat::Array) != format_name(MatrixFormat::Coordinate));
    assert(kind_name(FieldKind::Real) != kind_name(FieldKind::Integer));
    assert(kind_name(FieldKind::Real) != kind_name(FieldKind::Complex));
    assert(kind_name(FieldKind::Real) != kind_name(FieldKind::Pattern));
    assert(kind_name(FieldKind::Integer)[0] != kind_name(FieldKind::Complex)[0]);
    assert(kind_name(FieldKind::Integer)[0] != kind_name(FieldKind::Pattern)[0]);
    assert(kind_name(FieldKind::Complex)[0] != kind_name(FieldKind::Pattern)[0]);
    assert(symmetry_name(Symmetry::General) != symmetry_name(Symmetry::Symmetric));
    assert(symmetry_name(Symmetry::General) != symmetry_name(Symmetry::SkewSymmetric));
    assert(symmetry_name(Symmetry::General) != symmetry_name(Symmetry::Hermitian));
    assert(symmetry_name(Symmetry::Symmetric) != symmetry_name(Symmetry::SkewSymmetric));
    assert(symmetry_name(Symmetry::Symmetric)[0] != symmetry_name(Symmetry::Hermitian)[0]);
    assert(symmetry_name(Symmetry::SkewSymmetric) != symmetry_name(Symmetry::Hermitian));
}

proof fn lemma_no_lf_join(a: Seq<u8>, b: Seq<u8>)
    requires
        forall|k: int| 0 <= k < a.len() ==> !is_ascii_ws(#[trigger] a[k]),
        no_line_feed(b) || forall|k: int| 0 <= k < b.len() ==> !is_ascii_ws(#[trigger] b[k]),
    ensures
        no_line_feed(a + seq![0x20u8] + b),
{
    let s = a + seq![0x20u8] + b;
    assert forall|k: int| 0 <= k < s.len() implies #[trigger] s[k] != 0x0a by {
        if k < a.len() {
            assert(s[k] == a[k]);
        } else if k > a.len() {
            assert(s[k] == b[k - a.len() - 1]);
        }
    }
}

/// lower-case words joined by single spaces
proof fn lemma_lower_words(a: Seq<u8>, b: Seq<u8>)
    requires
        forall|k: int| 0 <= k < a.len() ==> lower_byte(#[trigger] a[k]) == a[k],
        forall|k: int| 0 <= k < b.len() ==> lower_byte(#[trigger] b[k]) == b[k],
    ensures
        lowercase(a + seq![0x20u8] + b) == a + seq![0x20u8] + b,
{
    let s = a + seq![0x20u8] + b;
    assert forall|k: int| 0 <= k < s.len() implies lower_byte(#[trigger] s[k]) == s[k] by {
        if k < a.len() {
            assert(s[k] == a[k]);
        } else if k > a.len() {
            assert(s[k] == b[k - a.len() - 1]);
        }
    }
    assert(lowercase(s) =~= s);
}

/// The tokens of a written header line are its words, read in lower case.
proof fn lemma_header_line_tokens(f: MatrixFormat, k: FieldKind, s: Symmetry)
    ensures
        tokens(lowercase(header_line(f, k, s))) == seq![
            banner_name(),
            matrix_name(),
            format_name(f),
            kind_name(k),
            symmetry_name(s),
        ],
        no_line_feed(header_line(f, k, s)),
        strip_cr(header_line(f, k, s)) == header_line(f, k, s),
{
    lemma_names_plain();
    let sp = seq![0x20u8];
    let w4 = kind_name(k) + sp + symmetry_name(s);
    let w3 = format_name(f) + sp + w4;
    let w2 = matrix_name() + sp + w3;
    let w1 = banner_name() + sp + w2;
    let h = header_line(f, k, s);
    assert(h =~= banner_text() + sp + w2);
    assert(lowercase(banner_text()) =~= banner_name());
    lemma_lower_words(kind_name(k), symmetry_name(s));
    assert forall|i: int| 0 <= i < w4.len() implies lower_byte(#[trigger] w4[i]) == w4[i] by {
        assert(lowercase(w4)[i] == lower_byte(w4[i]));
    }
    lemma_lower_words(format_name(f), w4);
    assert forall|i: int| 0 <= i < w3.len() implies lower_byte(#[trigger] w3[i]) == w3[i] by {
        assert(lowercase(w3)[i] == lower_byte(w3[i]));
    }
    lemma_lower_words(matrix_name(), w3);
    assert forall|i: int| 0 <= i < w2.len() implies lower_byte(#[trigger] w2[i]) == w2[i] by {
        assert(lowercase(w2)[i] == lower_byte(w2[i]));
    }
    assert(lowercase(h) =~= lowercase(banner_text()) + sp + lowercase(w2));
    assert(lowercase(h) =~= w1);
    lemma_tokens_single(symmetry_name(s));
    lemma_tokens_cons(kind_name(k), symmetry_name(s));
    lemma_tokens_cons(format_name(f), w4);
    lemma_tokens_cons(matrix_name(), w3);
    lemma_tokens_cons(banner_name(), w2);
    assert(tokens(w1) =~= seq![
        banner_name(),
        matrix_name(),
        format_name(f),
        kind_name(k),
        symmetry_name(s),
    ]);
    lemma_no_lf_join(kind_name(k), symmetry_name(s));
    lemma_no_lf_join(format_name(f), w4);
    lemma_no_lf_join(matrix_name(), w3);
    lemma_no_lf_join(banner_name(), w2);
    assert forall|i: int| 0 <= i < h.len() implies #[trigger] h[i] != 0x0a by {
        assert(lowercase(h)[i] == lower_byte(h[i]));
        assert(w1[i] != 0x0a);
    }
    assert(h.last() == symmetry_name(s).last());
}

} // verus!

verus! {

proof fn lemma_decimal_plain(n: nat)
    ensures
        decimal(n).len() > 0,
        forall|k: int|
            0 <= k < decimal(n).len() ==> is_digit(#[trigger] decimal(n)[k]) && !is_ascii_ws(
                decimal(n)[k],
            ) && lower_byte(decimal(n)[k]) == decimal(n)[k],
{
    crate::text::lemma_decimal_digits(n);
}

/// The tokens of a written content header line are its numbers in decimal.
proof fn lemma_numbers_line(ns: Seq<nat>)
    requires
        ns.len() == 2 || ns.len() == 3,
    ensures
        tokens(lowercase(numbers_line(ns))) == ns.map_values(|n: nat| decimal(n)),
        no_line_feed(numbers_line(ns)),
        strip_cr(numbers_line(ns)) == numbers_line(ns),
        !is_comment(numbers_line(ns)),
{
    let sp = seq![0x20u8];
    lemma_decimal_plain(ns[0]);
    lemma_decimal_plain(ns[1]);
    let d0 = decimal(ns[0]);
    let d1 = decimal(ns[1]);
    assert(ns.drop_last().len() == ns.len() - 1);
    if ns.len() == 2 {
        assert(ns.drop_last().drop_last().len() == 0);
        assert(numbers_line(ns.drop_last()) == d0);
        let l = d0 + sp + d1;
        assert(numbers_line(ns) == l);
        lemma_lower_words(d0, d1);
        lemma_tokens_single(d1);
        lemma_tokens_cons(d0, d1);
        assert(tokens(lowercase(l)) =~= ns.map_values(|n: nat| decimal(n)));
        lemma_no_lf_join(d0, d1);
        assert(l.last() == d1.last());
        assert(l[0] == d0[0]);
    } else {
        lemma_decimal_plain(ns[2]);
        let d2 = decimal(ns[2]);
        let p = ns.drop_last();
        assert(p.drop_last().len() == 1);
        assert(p.drop_last().drop_last().len() == 0);
        assert(numbers_line(p.drop_last()) == d0);
        assert(numbers_line(p) == d0 + sp + d1);
        let tail = d1 + sp + d2;
        let l = d0 + sp + tail;
        assert(numbers_line(ns) =~= l);
        lemma_lower_words(d1, d2);
        assert forall|i: int| 0 <= i < tail.len() implies lower_byte(#[trigger] tail[i])
            == tail[i] by {
            assert(lowercase(tail)[i] == lower_byte(tail[i]));
        }
        lemma_lower_words(d0, tail);
        lemma_tokens_single(d2);
        lemma_tokens_cons(d1, d2);
        lemma_tokens_cons(d0, tail);
        assert(tokens(lowercase(l)) =~= ns.map_values(|n: nat| decimal(n)));
        lemma_no_lf_join(d1, d2);
        lemma_no_lf_join(d0, tail);
        assert(l.last() == d2.last());
        assert(l[0] == d0[0]);
    }
}

/// Comment lines are skipped up to the next line that is not one.
proof fn lemma_skip_comments(s: LinesState, n: nat)
    requires
        s.failed == Set::<int>::empty(),
        s.pos + n < s.lines.len(),
        forall|i: int| s.pos <= i < s.pos + n ==> is_comment(#[trigger] s.lines[i]),
        !is_comment(s.lines[(s.pos + n) as int]),
    ensures
        skip_comments(s) == (LinesState { pos: s.pos + n, ..s }),
    decreases n,
{
    if n > 0 {
        assert(is_comment(s.lines[s.pos as int]));
        lemma_skip_comments(s.advance(), (n - 1) as nat);
    }
}

} // verus!

verus! {

/// the numbers of a content header line: the size, and the number of
/// entries for coordinates
pub open spec fn size_numbers(f: MatrixFormat, num_rows: usize, num_cols: usize, num_entries: usize) -> Seq<
    nat,
> {
    match f {
        MatrixFormat::Array => seq![num_rows as nat, num_cols as nat],
        MatrixFormat::Coordinate => seq![num_rows as nat, num_cols as nat, num_entries as nat],
    }
}

/// the header that a written file announces
pub open spec fn written_header(
    w: WriterState,
    f: MatrixFormat,
    k: FieldKind,
    num_entries: usize,
) -> Header {
    Header {
        format: f,
        field: k,
        symmetry: w.symmetry,
        num_rows: w.num_rows,
        num_cols: w.num_cols,
        num_entries: if f == MatrixFormat::Array {
            0
        } else {
            num_entries
        },
    }
}

/// the lines that a reader sees of a text
pub open spec fn read_lines(text: Seq<u8>) -> LinesState {
    LinesState { lines: text_lines(text), failed: Set::empty(), pos: 0 }
}


/// The header of a written file reads back as written, and leaves the reader
/// at the first entry line.
proof fn lemma_read_preamble(
    w: WriterState,
    f: MatrixFormat,
    k: FieldKind,
    num_entries: usize,
    entries: Seq<Seq<u8>>,
)
    requires
        writer_wf(w),
        supported(f, k, w.symmetry),
        forall|i: int| 0 <= i < entries.len() ==> no_line_feed(#[trigger] entries[i]),
    ensures
        ({
            let text = join_lines(
                preamble_lines(w, f, k, size_numbers(f, w.num_rows, w.num_cols, num_entries))
                    + entries,
            );
            let s = read_lines(text);
            let start = comment_lines(w.comment).len() + 2;
            &&& header_spec(s) == (
                Ok::<Header, Error>(written_header(w, f, k, num_entries)),
                LinesState { pos: start, ..s },
            )
            &&& s.lines.len() == start + entries.len()
            &&& forall|i: int|
                0 <= i < entries.len() ==> #[trigger] s.lines[start + i] == strip_cr(entries[i])
        }),
{
    let ns = size_numbers(f, w.num_rows, w.num_cols, num_entries);
    let pre = preamble_lines(w, f, k, ns);
    let ls = pre + entries;
    let text = join_lines(ls);
    let s = read_lines(text);
    let cl = comment_lines(w.comment);
    let nc = cl.len() as int;
    let hl = header_line(f, k, w.symmetry);
    let sl = numbers_line(ns);
    lemma_header_line_tokens(f, k, w.symmetry);
    lemma_numbers_line(ns);
    // no line holds a line feed
    assert forall|i: int| 0 <= i < ls.len() implies no_line_feed(#[trigger] ls[i]) by {
        if i == 0 {
            assert(ls[i] == hl);
        } else if i <= nc {
            let c = w.comment[i - 1];
            assert(ls[i] == seq![0x25u8] + c);
            assert(no_line_feed(c));
            assert forall|j: int| 0 <= j < ls[i].len() implies #[trigger] ls[i][j] != 0x0a by {
                if j > 0 {
                    assert(ls[i][j] == c[j - 1]);
                }
            }
        } else if i == nc + 1 {
            assert(ls[i] == sl);
        } else {
            assert(ls[i] == entries[i - nc - 2]);
        }
    }
    lemma_lines_of_joined(ls);
    let lines = s.lines;
    assert(lines == ls.map_values(|l: Seq<u8>| strip_cr(l)));
    assert(lines[0] == hl);
    assert(lines[nc + 1] == sl);
    // the comment lines are skipped
    let s1 = s.advance();
    assert(s1 == LinesState { pos: 1, ..s });
    assert forall|i: int| s1.pos <= i < s1.pos + nc implies is_comment(#[trigger] lines[i]) by {
        let c = w.comment[i - 1];
        assert(ls[i] == seq![0x25u8] + c);
        assert(ls[i][0] == 0x25u8);
        assert(lines[i] == strip_cr(ls[i]));
        if ls[i].len() > 1 {
            assert(lines[i][0] == 0x25u8);
        } else {
            assert(ls[i].last() == 0x25u8);
            assert(lines[i] == ls[i]);
        }
    }
    lemma_skip_comments(s1, nc as nat);
    let s2 = skip_comments(s1);
    assert(s2.current() == Some(Ok::<Seq<u8>, Error>(sl)));
    // the content header
    lemma_names_read_back(f, k, w.symmetry);
    lemma_usize_roundtrip(w.num_rows);
    lemma_usize_roundtrip(w.num_cols);
    lemma_usize_roundtrip(num_entries);
    let ct = tokens(lowercase(sl));
    assert(ct == ns.map_values(|n: nat| decimal(n)));
    assert(ct[0] == decimal(w.num_rows as nat));
    assert(ct[1] == decimal(w.num_cols as nat));
    if f == MatrixFormat::Coordinate {
        assert(ct[2] == decimal(num_entries as nat));
    }
    assert(content_header_spec(f, kind_name(k), symmetry_name(w.symmetry), ct) == Ok::<
        Header,
        Error,
    >(written_header(w, f, k, num_entries)));
    assert forall|i: int| 0 <= i < entries.len() implies #[trigger] lines[nc + 2 + i]
        == strip_cr(entries[i]) by {
        assert(ls[nc + 2 + i] == entries[i]);
    }
}

} // verus!

verus! {

// ---------------------------------------------------------------------------
// reading back entries
// ---------------------------------------------------------------------------
/// a text without line endings
pub open spec fn no_line_ending(l: Seq<u8>) -> bool {
    forall|k: int| 0 <= k < l.len() ==> #[trigger] l[k] != 0x0a && l[k] != 0x0d
}

/// A value whose written text has no line ending and reads back as the value,
/// as every integer does.
pub open spec fn reads_back<T: Field>(v: T) -> bool {
    T::spec_read(tokens(T::spec_write(v))) == Ok::<T, Error>(v) && no_line_ending(
        T::spec_write(v),
    )
}

/// every entry of a matrix reads back
pub open spec fn entries_read_back<T: Field>(m: Seq<Seq<T>>) -> bool {
    forall|r: int, c: int|
        0 <= r < m.len() && 0 <= c < m[r].len() ==> #[trigger] reads_back(m[r][c])
}

/// The positions of an array file lie within the matrix.
proof fn lemma_positions_in_bounds(sym: Symmetry, num_rows: nat, num_cols: nat)
    ensures
        forall|i: int|
            0 <= i < array_positions(sym, num_rows, num_cols).len() ==> (#[trigger] array_positions(
                sym,
                num_rows,
                num_cols,
            )[i]).row < num_rows && array_positions(sym, num_rows, num_cols)[i].col < num_cols,
    decreases num_cols,
{
    if num_cols > 0 {
        lemma_positions_in_bounds(sym, num_rows, (num_cols - 1) as nat);
        let p = array_positions(sym, num_rows, (num_cols - 1) as nat);
        let cp = column_positions(sym, num_rows, (num_cols - 1) as nat);
        assert forall|i: int| 0 <= i < array_positions(sym, num_rows, num_cols).len() implies (
        #[trigger] array_positions(sym, num_rows, num_cols)[i]).row < num_rows && array_positions(
            sym,
            num_rows,
            num_cols,
        )[i].col < num_cols by {
            if i >= p.len() {
                assert(array_positions(sym, num_rows, num_cols)[i] == cp[i - p.len()]);
            } else {
                assert(array_positions(sym, num_rows, num_cols)[i] == p[i]);
            }
        }
    }
}

/// A text without line endings is a line as it is.
proof fn lemma_no_line_ending(l: Seq<u8>)
    requires
        no_line_ending(l),
    ensures
        no_line_feed(l),
        strip_cr(l) == l,
{
    if l.len() > 0 {
        assert(l[l.len() - 1] != 0x0d);
    }
}

/// the lines from `pos` on hold the values `vals`, one per line
pub open spec fn values_at<T: Field>(lines: Seq<Seq<u8>>, pos: int, vals: Seq<T>) -> bool {
    &&& 0 <= pos
    &&& pos + vals.len() <= lines.len()
    &&& forall|i: int|
        0 <= i < vals.len() ==> #[trigger] T::spec_read(tokens(lines[pos + i])) == Ok::<T, Error>(
            vals[i],
        )
}

/// Reading lines that each hold a value gives the values.
proof fn lemma_read_run_ok<T: Field>(s: LinesState, vals: Seq<T>)
    requires
        s.failed == Set::<int>::empty(),
        values_at(s.lines, s.pos as int, vals),
    ensures
        read_run::<T>(s, vals.len()) == (
            vals,
            RunEnd::Complete,
            LinesState { pos: s.pos + vals.len(), ..s },
        ),
    decreases vals.len(),
{
    if vals.len() == 0 {
        assert(vals =~= Seq::<T>::empty());
    } else {
        assert(T::spec_read(tokens(s.lines[s.pos as int + 0])) == Ok::<T, Error>(vals[0]));
        let rest = vals.drop_first();
        let s1 = s.advance();
        assert forall|i: int| 0 <= i < rest.len() implies #[trigger] T::spec_read(
            tokens(s1.lines[s1.pos as int + i]),
        ) == Ok::<T, Error>(rest[i]) by {
            assert(T::spec_read(tokens(s.lines[s.pos as int + (i + 1)])) == Ok::<T, Error>(
                vals[i + 1],
            ));
            assert(s1.pos as int + i == s.pos as int + (i + 1));
        }
        lemma_read_run_ok(s1, rest);
        assert(seq![vals[0]] + rest =~= vals);
    }
}

/// The positions of a column come right after those of the columns before it.
proof fn lemma_positions_split(sym: Symmetry, num_rows: nat, num_cols: nat, c: nat)
    requires
        c < num_cols,
    ensures
        array_positions(sym, num_rows, c).len() + column_positions(sym, num_rows, c).len()
            <= array_positions(sym, num_rows, num_cols).len(),
        forall|k: int|
            0 <= k < column_positions(sym, num_rows, c).len() ==> #[trigger] array_positions(
                sym,
                num_rows,
                num_cols,
            )[array_positions(sym, num_rows, c).len() + k] == column_positions(sym, num_rows, c)[k],
    decreases num_cols,
{
    if c + 1 < num_cols {
        lemma_positions_split(sym, num_rows, (num_cols - 1) as nat, c);
        let p = array_positions(sym, num_rows, (num_cols - 1) as nat);
        assert forall|k: int| 0 <= k < column_positions(sym, num_rows, c).len() implies #[trigger] array_positions(
            sym,
            num_rows,
            num_cols,
        )[array_positions(sym, num_rows, c).len() + k] == column_positions(sym, num_rows, c)[k] by {
            assert(array_positions(sym, num_rows, num_cols)[array_positions(sym, num_rows, c).len()
                + k] == p[array_positions(sym, num_rows, c).len() + k]);
        }
    }
}

/// the `c`-th column of a matrix given row by row
pub open spec fn column<T>(m: Seq<Seq<T>>, c: int) -> Seq<T> {
    Seq::new(m.len(), |r: int| m[r][c])
}

/// the results of reading `n` columns one after another, and the state after
pub open spec fn array_reads<T: Field>(s: ArrayReaderState<T>, n: nat) -> (
    Seq<Option<Result<Seq<T>, Error>>>,
    ArrayReaderState<T>,
)
    decreases n,
{
    if n == 0 {
        (Seq::empty(), s)
    } else {
        let (r, s2) = array_step::<T>(s);
        let (rs, s3) = array_reads::<T>(s2, (n - 1) as nat);
        (seq![r] + rs, s3)
    }
}

/// the columns of a matrix, each read whole, then the end
pub open spec fn all_columns<T>(m: Seq<Seq<T>>, num_cols: nat, from: nat) -> Seq<
    Option<Result<Seq<T>, Error>>,
> {
    Seq::new(
        (num_cols - from) as nat,
        |j: int| Some(Ok::<Seq<T>, Error>(column(m, from + j))),
    ).push(None)
}

/// the entry lines of a written array file hold the entries at the written positions
pub open spec fn array_entries_at<T: Field>(
    lines: Seq<Seq<u8>>,
    start: int,
    m: Seq<Seq<T>>,
    ps: Seq<Position>,
) -> bool {
    &&& 0 <= start
    &&& start + ps.len() <= lines.len()
    &&& forall|i: int|
        0 <= i < ps.len() ==> #[trigger] T::spec_read(tokens(lines[start + i])) == Ok::<T, Error>(
            m[ps[i].row as int][ps[i].col as int],
        )
}

proof fn lemma_general_reads<T: Field>(
    s: GeneralArrayState,
    m: Seq<Seq<T>>,
    start: int,
)
    requires
        s.lines.failed == Set::<int>::empty(),
        is_matrix(m, s.num_rows as nat, s.num_cols as nat),
        s.current_col <= s.num_cols,
        array_entries_at::<T>(
            s.lines.lines,
            start,
            m,
            array_positions(Symmetry::General, s.num_rows as nat, s.num_cols as nat),
        ),
        s.lines.pos == start + array_positions(
            Symmetry::General,
            s.num_rows as nat,
            s.current_col as nat,
        ).len(),
    ensures
        array_reads::<T>(
            ArrayReaderState::General(s),
            (s.num_cols - s.current_col + 1) as nat,
        ).0 == all_columns(m, s.num_cols as nat, s.current_col as nat),
    decreases s.num_cols - s.current_col,
{
    let c = s.current_col as nat;
    let rows = s.num_rows as nat;
    let cols = s.num_cols as nat;
    if c == cols {
        let (r, s2) = array_step::<T>(ArrayReaderState::General(s));
        assert(r is None);
        assert(array_reads::<T>(s2, 0).0 =~= Seq::<Option<Result<Seq<T>, Error>>>::empty());
        assert(array_reads::<T>(ArrayReaderState::General(s), 1).0 =~= all_columns(m, cols, c));
    } else {
        lemma_positions_split(Symmetry::General, rows, cols, c);
        let cp = column_positions(Symmetry::General, rows, c);
        let pre = array_positions(Symmetry::General, rows, c);
        let all = array_positions(Symmetry::General, rows, cols);
        let col = column(m, c as int);
        assert(cp.len() == rows);
        assert(col.len() == rows);
        assert forall|i: int| 0 <= i < col.len() implies #[trigger] T::spec_read(
            tokens(s.lines.lines[s.lines.pos as int + i]),
        ) == Ok::<T, Error>(col[i]) by {
            assert(all[pre.len() + i] == cp[i]);
            assert(T::spec_read(tokens(s.lines.lines[start + (pre.len() + i)])) == Ok::<T, Error>(
                m[all[pre.len() + i].row as int][all[pre.len() + i].col as int],
            ));
            assert(s.lines.pos as int + i == start + (pre.len() + i));
        }
        lemma_read_run_ok::<T>(s.lines, col);
        let (r, s2) = array_step::<T>(ArrayReaderState::General(s));
        assert(r == Some(Ok::<Seq<T>, Error>(col)));
        let g2 = GeneralArrayState {
            lines: LinesState { pos: s.lines.pos + rows, ..s.lines },
            current_col: (c + 1) as usize,
            ..s
        };
        assert(s2 == ArrayReaderState::<T>::General(g2));
        assert(array_positions(Symmetry::General, rows, c + 1) == pre + cp);
        lemma_general_reads::<T>(g2, m, start);
        assert(all_columns(m, cols, c) =~= seq![r] + all_columns(m, cols, c + 1));
    }
}

} // verus!

verus! {

/// The entry lines of a written array file, read back, hold the entries.
proof fn lemma_array_file<T: Field>(w: WriterState, m: Seq<Seq<T>>)
    requires
        writer_wf(w),
        is_matrix(m, w.num_rows as nat, w.num_cols as nat),
        entries_read_back(m),
        supported(MatrixFormat::Array, T::spec_kind(), w.symmetry),
    ensures
        ({
            let s = read_lines(join_lines(array_lines::<T>(w, m)));
            let start = comment_lines(w.comment).len() + 2;
            let (h, s1) = header_spec(s);
            &&& h == Ok::<Header, Error>(written_header(w, MatrixFormat::Array, T::spec_kind(), 0))
            &&& s1 == LinesState { pos: start, ..s }
            &&& array_entries_at::<T>(
                s.lines,
                start as int,
                m,
                array_positions(w.symmetry, w.num_rows as nat, w.num_cols as nat),
            )
        }),
{
    let ps = array_positions(w.symmetry, w.num_rows as nat, w.num_cols as nat);
    let entries = entry_texts(m, ps);
    lemma_positions_in_bounds(w.symmetry, w.num_rows as nat, w.num_cols as nat);
    assert forall|i: int| 0 <= i < entries.len() implies no_line_feed(#[trigger] entries[i]) by {
        assert(entries[i] == T::spec_write(m[ps[i].row as int][ps[i].col as int]));
        assert(reads_back(m[ps[i].row as int][ps[i].col as int]));
        lemma_no_line_ending(entries[i]);
    }
    assert(size_numbers(MatrixFormat::Array, w.num_rows, w.num_cols, 0) == seq![
        w.num_rows as nat,
        w.num_cols as nat,
    ]);
    lemma_read_preamble(w, MatrixFormat::Array, T::spec_kind(), 0, entries);
    let s = read_lines(join_lines(array_lines::<T>(w, m)));
    let start = comment_lines(w.comment).len() + 2;
    assert forall|i: int| 0 <= i < ps.len() implies #[trigger] T::spec_read(
        tokens(s.lines[start + i]),
    ) == Ok::<T, Error>(m[ps[i].row as int][ps[i].col as int]) by {
        let v = m[ps[i].row as int][ps[i].col as int];
        assert(reads_back(v));
        assert(entries[i] == T::spec_write(v));
        lemma_no_line_ending(entries[i]);
        assert(s.lines[start + i] == strip_cr(entries[i]));
    }
}

} // verus!

verus! {

/// the entries above the diagonal are the mirror of those below it
pub open spec fn mirrored<T: Field>(m: Seq<Seq<T>>, mir: Mirror) -> bool {
    forall|r: int, c: int| 0 <= r < c < m.len() ==> #[trigger] m[r][c] == mirror_value(mir, m[c][r])
}

/// A matrix has a symmetry: symmetric (equal to its transpose), hermitian
/// (equal to its conjugate transpose), or skew-symmetric (equal to its
/// inverted transpose, with zeros on the diagonal).
pub open spec fn has_symmetry<T: Field>(m: Seq<Seq<T>>, sym: Symmetry) -> bool {
    match sym {
        Symmetry::General => true,
        Symmetry::Symmetric => mirrored(m, Mirror::Identity),
        Symmetry::Hermitian => mirrored(m, Mirror::Conjugate),
        Symmetry::SkewSymmetric => mirrored(m, Mirror::Inverse) && forall|d: int|
            0 <= d < m.len() ==> #[trigger] m[d][d] == T::spec_zero(),
    }
}

/// the mirror that a symmetry uses
pub open spec fn symmetry_mirror(sym: Symmetry) -> Mirror {
    match sym {
        Symmetry::Hermitian => Mirror::Conjugate,
        Symmetry::SkewSymmetric => Mirror::Inverse,
        _ => Mirror::Identity,
    }
}

/// The state of a reader of a symmetric matrix after `current_col` columns:
/// each column still to come holds the mirror of the entries of its row read so far.
pub open spec fn lower_state_ok<T: Field>(
    l: LowerTriState<T>,
    m: Seq<Seq<T>>,
    start: int,
    sym: Symmetry,
) -> bool {
    let n = l.size as int;
    let c = l.current_col as int;
    &&& c <= n
    &&& l.mirror == symmetry_mirror(sym)
    &&& l.lines.pos == start + array_positions(sym, n as nat, c as nat).len()
    &&& l.pending.len() == n - c
    &&& forall|j: int|
        0 <= j < n - c ==> #[trigger] l.pending[j] == Seq::new(
            c as nat,
            |r: int| mirror_value(l.mirror, m[n - 1 - j][r]),
        )
}

pub open spec fn lower_variant<T>(sym: Symmetry, l: LowerTriState<T>) -> ArrayReaderState<T> {
    if sym == Symmetry::SkewSymmetric {
        ArrayReaderState::LowerTriangleDiagonalExclusive(l)
    } else {
        ArrayReaderState::LowerTriangleDiagonalInclusive(l)
    }
}

proof fn lemma_lower_reads<T: Field>(
    l: LowerTriState<T>,
    m: Seq<Seq<T>>,
    start: int,
    sym: Symmetry,
)
    requires
        l.lines.failed == Set::<int>::empty(),
        sym != Symmetry::General,
        is_matrix(m, l.size as nat, l.size as nat),
        has_symmetry(m, sym),
        lower_state_ok(l, m, start, sym),
        array_entries_at::<T>(
            l.lines.lines,
            start,
            m,
            array_positions(sym, l.size as nat, l.size as nat),
        ),
    ensures
        array_reads::<T>(lower_variant(sym, l), (l.size - l.current_col + 1) as nat).0
            == all_columns(m, l.size as nat, l.current_col as nat),
    decreases l.size - l.current_col,
{
    let n = l.size as nat;
    let c = l.current_col as nat;
    if c == n {
        let (r, s2) = array_step::<T>(lower_variant(sym, l));
        assert(r is None);
        assert(array_reads::<T>(s2, 0).0 =~= Seq::<Option<Result<Seq<T>, Error>>>::empty());
        assert(array_reads::<T>(lower_variant(sym, l), 1).0 =~= all_columns(m, n, c));
    } else {
        lemma_positions_split(sym, n, n, c);
        let cp = column_positions(sym, n, c);
        let pre = array_positions(sym, n, c);
        let all = array_positions(sym, n, n);
        let col = column(m, c as int);
        let mir = l.mirror;
        let head = l.pending.last();
        let rest = l.pending.drop_last();
        assert(head == l.pending[(n - c - 1) as int]);
        assert(head == Seq::new(c, |r: int| mirror_value(mir, m[c as int][r])));
        // the lines of the column
        let inc = sym != Symmetry::SkewSymmetric;
        let first = first_row(sym, c);
        assert(first == if inc {
            c
        } else {
            c + 1
        });
        let below = Seq::new((n - c - 1) as nat, |k: int| m[c + 1 + k][c as int]);
        let lines_below = if inc {
            l.lines.advance()
        } else {
            l.lines
        };
        assert(cp.len() == n - first);
        if inc {
            assert(l.lines.pos < l.lines.lines.len());
        }
        assert(lines_below.pos == l.lines.pos + (c + 1 - first));
        assert forall|k: int| 0 <= k < below.len() implies #[trigger] T::spec_read(
            tokens(lines_below.lines[lines_below.pos as int + k]),
        ) == Ok::<T, Error>(below[k]) by {
            let idx = (c + 1 - first) + k;
            assert(cp[idx] == Position { row: (c + 1 + k) as usize, col: c as usize });
            assert(all[pre.len() + idx] == cp[idx]);
            assert(T::spec_read(tokens(l.lines.lines[start + (pre.len() + idx)])) == Ok::<
                T,
                Error,
            >(m[c + 1 + k][c as int]));
            assert(lines_below.pos as int + k == start + (pre.len() + idx));
        }
        lemma_read_run_ok::<T>(lines_below, below);
        let d = if inc {
            m[c as int][c as int]
        } else {
            T::spec_zero()
        };
        if inc {
            assert(cp[0] == Position { row: c as usize, col: c as usize });
            assert(all[pre.len() as int + 0] == cp[0]);
            assert(T::spec_read(tokens(l.lines.lines[start + (pre.len() + 0)])) == Ok::<T, Error>(
                d,
            ));
            assert(l.lines.current() == Some(Ok::<Seq<u8>, Error>(l.lines.lines[start + (pre.len()
                + 0)])));
        } else {
            assert(m[c as int][c as int] == T::spec_zero());
        }
        let full = head.push(d) + below;
        assert(full =~= col) by {
            assert forall|r: int| 0 <= r < n implies #[trigger] full[r] == col[r] by {
                if r < c {
                    assert(m[r][c as int] == mirror_value(mir, m[c as int][r]));
                } else if r > c {
                    assert(full[r] == below[r - c - 1]);
                }
            }
        }
        let (res, s2) = array_step::<T>(lower_variant(sym, l));
        assert(res == Some(Ok::<Seq<T>, Error>(col)));
        let pend2 = mirror_into(rest, below, mir);
        let l2 = LowerTriState::<T> {
            lines: LinesState { pos: lines_below.pos + below.len(), ..lines_below },
            current_col: (c + 1) as usize,
            pending: pend2,
            ..l
        };
        assert(s2 == lower_variant(sym, l2));
        assert(array_positions(sym, n, c + 1) == pre + cp);
        assert forall|j: int| 0 <= j < n - (c + 1) implies #[trigger] l2.pending[j] == Seq::new(
            (c + 1) as nat,
            |r: int| mirror_value(l2.mirror, m[n - 1 - j][r]),
        ) by {
            let k = rest.len() - 1 - j;
            assert(rest[j] == l.pending[j]);
            assert(below[k] == m[n - 1 - j][c as int]);
            assert(l2.pending[j] =~= Seq::new(
                (c + 1) as nat,
                |r: int| mirror_value(l2.mirror, m[n - 1 - j][r]),
            ));
        }
        lemma_lower_reads::<T>(l2, m, start, sym);
        assert(all_columns(m, n, c) =~= seq![res] + all_columns(m, n, c + 1));
    }
}

} // verus!

verus! {

/// A dense matrix that is written reads back as written: the header
/// announces the field, the symmetry and the size, and the reader gives the
/// columns of the matrix, one after another, then the end. With a symmetry,
/// only the lower triangle is written, and the matrix must have the symmetry
/// for the upper triangle to read back as it was.
pub proof fn law_array_roundtrip<T: Field>(w: WriterState, m: Seq<Seq<T>>)
    requires
        writer_wf(w),
        is_matrix(m, w.num_rows as nat, w.num_cols as nat),
        entries_read_back(m),
        supported(MatrixFormat::Array, T::spec_kind(), w.symmetry),
        has_symmetry(m, w.symmetry),
    ensures
        ({
            let (h, s1) = header_spec(read_lines(join_lines(array_lines::<T>(w, m))));
            &&& h == Ok::<Header, Error>(written_header(w, MatrixFormat::Array, T::spec_kind(), 0))
            &&& array_reads::<T>(
                array_start::<T>(s1, h->Ok_0),
                (w.num_cols + 1) as nat,
            ).0 == all_columns(m, w.num_cols as nat, 0)
        }),
{
    lemma_array_file::<T>(w, m);
    let s = read_lines(join_lines(array_lines::<T>(w, m)));
    let (h, s1) = header_spec(s);
    law_array_reads::<T>(s1, h->Ok_0, m);
}

/// A dense matrix is read from any lines that hold its entries, one per line,
/// column by column (for a symmetry, the lower triangle, with the diagonal
/// unless skew-symmetric): the reader gives the columns of the matrix, one
/// after another, then the end. With a symmetry, the matrix must have it for
/// the upper triangle to be the one read.
pub proof fn law_array_reads<T: Field>(lines: LinesState, h: Header, m: Seq<Seq<T>>)
    requires
        lines.failed == Set::<int>::empty(),
        h.symmetry != Symmetry::General ==> h.num_rows == h.num_cols,
        is_matrix(m, h.num_rows as nat, h.num_cols as nat),
        has_symmetry(m, h.symmetry),
        array_entries_at::<T>(
            lines.lines,
            lines.pos as int,
            m,
            array_positions(h.symmetry, h.num_rows as nat, h.num_cols as nat),
        ),
    ensures
        array_reads::<T>(array_start::<T>(lines, h), (h.num_cols + 1) as nat).0 == all_columns(
            m,
            h.num_cols as nat,
            0,
        ),
{
    let start = lines.pos as int;
    if h.symmetry == Symmetry::General {
        let g = GeneralArrayState {
            lines,
            num_rows: h.num_rows,
            current_col: 0,
            num_cols: h.num_cols,
        };
        assert(array_start::<T>(lines, h) == ArrayReaderState::<T>::General(g));
        lemma_general_reads::<T>(g, m, start);
    } else {
        let l = LowerTriState::<T> {
            lines,
            size: h.num_cols,
            current_col: 0,
            mirror: symmetry_mirror(h.symmetry),
            pending: Seq::new(h.num_cols as nat, |i: int| Seq::<T>::empty()),
        };
        assert(array_start::<T>(lines, h) == lower_variant(h.symmetry, l));
        assert forall|j: int| 0 <= j < h.num_cols implies #[trigger] l.pending[j] == Seq::new(
            0,
            |r: int| mirror_value(l.mirror, m[h.num_cols - 1 - j][r]),
        ) by {
            assert(l.pending[j] =~= Seq::new(
                0,
                |r: int| mirror_value(l.mirror, m[h.num_cols - 1 - j][r]),
            ));
        }
        lemma_lower_reads::<T>(l, m, start, h.symmetry);
    }
}

} // verus!

verus! {

/// Every integer reads back as it is written: its text is a single token of
/// ASCII, without line ending, that reads as the integer.
pub proof fn law_integer_reads_back(v: i64)
    ensures
        reads_back::<i64>(v),
        is_ascii(<i64 as Field>::spec_write(v)),
{
    lemma_i64_roundtrip(v);
    let t = i64_text(v);
    lemma_tokens_single(t);
    assert(tokens(t)[0] == t);
    if v < 0 {
        lemma_decimal_ascii((-v) as nat);
        lemma_ascii_concat(seq![0x2du8], decimal((-v) as nat));
    } else {
        lemma_decimal_ascii(v as nat);
    }
}

/// A dense matrix of integers that is written reads back as written, for any
/// symmetry that the matrix has (integers are never hermitian).
pub proof fn law_integer_array_roundtrip(w: WriterState, m: Seq<Seq<i64>>)
    requires
        writer_wf(w),
        is_matrix(m, w.num_rows as nat, w.num_cols as nat),
        w.symmetry != Symmetry::Hermitian,
        has_symmetry(m, w.symmetry),
    ensures
        ({
            let (h, s1) = header_spec(read_lines(join_lines(array_lines::<i64>(w, m))));
            &&& h == Ok::<Header, Error>(
                written_header(w, MatrixFormat::Array, FieldKind::Integer, 0),
            )
            &&& array_reads::<i64>(
                array_start::<i64>(s1, h->Ok_0),
                (w.num_cols + 1) as nat,
            ).0 == all_columns(m, w.num_cols as nat, 0)
        }),
{
    assert forall|r: int, c: int| 0 <= r < m.len() && 0 <= c < m[r].len() implies #[trigger] reads_back(
        m[r][c],
    ) by {
        law_integer_reads_back(m[r][c]);
    }
    law_array_roundtrip::<i64>(w, m);
}

} // verus!

verus! {

// ---------------------------------------------------------------------------
// reading back coordinates
// ---------------------------------------------------------------------------
/// An entry as a sparse matrix reader gives it: the entry, then, for a
/// symmetry, its mirror across the diagonal when it lies off the diagonal.
pub open spec fn with_mirror<T: Field>(e: (Position, T), mirror: Option<Mirror>) -> Seq<
    (Position, T),
> {
    match mirror {
        Some(m) => if e.0.row != e.0.col {
            seq![e, (Position { row: e.0.col, col: e.0.row }, mirror_value(m, e.1))]
        } else {
            seq![e]
        },
        None => seq![e],
    }
}

/// the entries that reading a sparse matrix gives, in order
pub open spec fn entries_read<T: Field>(coords: Seq<(Position, T)>, mirror: Option<Mirror>) -> Seq<
    (Position, T),
>
    decreases coords.len(),
{
    if coords.len() == 0 {
        Seq::empty()
    } else {
        with_mirror(coords[0], mirror) + entries_read(coords.drop_first(), mirror)
    }
}

/// the results of reading `n` entries one after another, and the state after
pub open spec fn coordinate_reads<T: Field>(s: CoordinateState<T>, n: nat) -> (
    Seq<Option<Result<(Position, T), Error>>>,
    CoordinateState<T>,
)
    decreases n,
{
    if n == 0 {
        (Seq::empty(), s)
    } else {
        let (r, s2) = coordinate_step::<T>(s);
        let (rs, s3) = coordinate_reads::<T>(s2, (n - 1) as nat);
        (seq![r] + rs, s3)
    }
}

/// each entry read successfully, then the end
pub open spec fn all_entries<T>(es: Seq<(Position, T)>) -> Seq<Option<Result<(Position, T), Error>>> {
    es.map_values(|e: (Position, T)| Some(Ok::<(Position, T), Error>(e))).push(None)
}

/// the mirrored entry that follows an entry read from a line
pub open spec fn mirror_buffer<T: Field>(e: (Position, T), mirror: Option<Mirror>) -> Option<
    (Position, T),
> {
    match mirror {
        Some(m) => if e.0.row != e.0.col {
            Some((Position { row: e.0.col, col: e.0.row }, mirror_value(m, e.1)))
        } else {
            None
        },
        None => None,
    }
}

/// An entry line that is written reads back as the entry.
proof fn lemma_entry_line<T: Field>(
    e: (Position, T),
    num_rows: usize,
    num_cols: usize,
    mirror: Option<Mirror>,
)
    requires
        e.0.row < num_rows,
        e.0.col < num_cols,
        reads_back(e.1),
    ensures
        no_line_ending(coordinate_line(e.0, e.1)),
        entry_spec::<T>(tokens(coordinate_line(e.0, e.1)), num_rows, num_cols, mirror) == (
            Ok::<(Position, T), Error>(e),
            mirror_buffer(e, mirror),
        ),
{
    let r1 = (e.0.row + 1) as usize;
    let c1 = (e.0.col + 1) as usize;
    let dr = decimal(r1 as nat);
    let dc = decimal(c1 as nat);
    let wv = T::spec_write(e.1);
    lemma_usize_roundtrip(r1);
    lemma_usize_roundtrip(c1);
    let line = coordinate_line(e.0, e.1);
    let rest = dc + seq![0x20u8] + wv;
    assert(line =~= dr + seq![0x20u8] + rest);
    lemma_tokens_cons(dr, rest);
    lemma_tokens_cons(dc, wv);
    let t = tokens(line);
    assert(t =~= seq![dr, dc] + tokens(wv));
    assert(t[0] == dr);
    assert(t[1] == dc);
    assert(t.skip(2) =~= tokens(wv));
    assert(index_ok(dr, num_rows));
    assert(index_ok(dc, num_cols));
    lemma_decimal_digits(r1 as nat);
    lemma_decimal_digits(c1 as nat);
    assert forall|k: int| 0 <= k < line.len() implies #[trigger] line[k] != 0x0a && line[k]
        != 0x0d by {
        if k < dr.len() {
            assert(line[k] == dr[k]);
            assert(is_digit(dr[k]));
        } else if k == dr.len() {
        } else if k < dr.len() + 1 + dc.len() {
            assert(line[k] == dc[k - dr.len() - 1]);
            assert(is_digit(dc[k - dr.len() - 1]));
        } else if k == dr.len() + 1 + dc.len() {
        } else {
            assert(line[k] == wv[k - dr.len() - 2 - dc.len()]);
        }
    }
}

/// Reading entry lines that each hold an entry gives the entries, each with
/// its mirror, then the end.
proof fn lemma_coordinate_reads<T: Field>(
    s: CoordinateState<T>,
    coords: Seq<(Position, T)>,
    start: int,
    i: nat,
)
    requires
        s.lines.failed == Set::<int>::empty(),
        s.buffer is None,
        i <= coords.len(),
        s.num_left == coords.len() - i,
        s.lines.pos == start + i,
        0 <= start,
        start + coords.len() <= s.lines.lines.len(),
        forall|k: int|
            0 <= k < coords.len() ==> #[trigger] entry_spec::<T>(
                tokens(s.lines.lines[start + k]),
                s.num_rows,
                s.num_cols,
                s.mirror,
            ) == (Ok::<(Position, T), Error>(coords[k]), mirror_buffer(coords[k], s.mirror)),
    ensures
        coordinate_reads::<T>(s, entries_read(coords.skip(i as int), s.mirror).len() + 1).0
            == all_entries(entries_read(coords.skip(i as int), s.mirror)),
    decreases coords.len() - i,
{
    let rest = coords.skip(i as int);
    let es = entries_read(rest, s.mirror);
    if i == coords.len() {
        assert(rest.len() == 0);
        assert(es =~= Seq::<(Position, T)>::empty());
        let (r, s2) = coordinate_step::<T>(s);
        assert(r is None);
        assert(coordinate_reads::<T>(s2, 0).0 =~= Seq::<Option<Result<(Position, T), Error>>>::empty());
        assert(coordinate_reads::<T>(s, 1).0 =~= all_entries(es));
    } else {
        let e = coords[i as int];
        assert(rest[0] == e);
        assert(rest.drop_first() =~= coords.skip(i + 1int));
        let tail = entries_read(coords.skip(i + 1int), s.mirror);
        assert(es == with_mirror(e, s.mirror) + tail);
        assert(entry_spec::<T>(
            tokens(s.lines.lines[start + i]),
            s.num_rows,
            s.num_cols,
            s.mirror,
        ) == (Ok::<(Position, T), Error>(e), mirror_buffer(e, s.mirror)));
        let (r1, s1) = coordinate_step::<T>(s);
        assert(r1 == Some(Ok::<(Position, T), Error>(e)));
        let next = CoordinateState::<T> {
            lines: s.lines.advance(),
            num_left: (s.num_left - 1) as usize,
            buffer: None,
            ..s
        };
        lemma_coordinate_reads::<T>(next, coords, start, i + 1);
        let n = tail.len();
        match mirror_buffer(e, s.mirror) {
            None => {
                assert(s1 == next);
                assert(with_mirror(e, s.mirror) =~= seq![e]);
                assert(es.len() + 1 == n + 2);
                assert(coordinate_reads::<T>(s, n + 2).0 == seq![r1] + coordinate_reads::<T>(
                    next,
                    n + 1,
                ).0);
                assert(all_entries(es) =~= seq![r1] + all_entries(tail));
            },
            Some(b) => {
                let (r2, s2) = coordinate_step::<T>(s1);
                assert(r2 == Some(Ok::<(Position, T), Error>(b)));
                assert(s2 == next);
                assert(with_mirror(e, s.mirror) =~= seq![e, b]);
                assert(es.len() + 1 == n + 3);
                assert(coordinate_reads::<T>(s1, n + 2).0 == seq![r2] + coordinate_reads::<T>(
                    next,
                    n + 1,
                ).0);
                assert(coordinate_reads::<T>(s, n + 3).0 == seq![r1] + coordinate_reads::<T>(
                    s1,
                    n + 2,
                ).0);
                assert(all_entries(es) =~= seq![r1, r2] + all_entries(tail));
            },
        }
    }
}

/// A sparse matrix that is written reads back as written: the header
/// announces the field, the symmetry, the size and the number of entries,
/// and the reader gives each entry in order, followed, for a symmetry, by its
/// mirror across the diagonal when it lies off the diagonal, then the end.
pub proof fn law_coordinate_roundtrip<T: Field>(w: WriterState, coords: Seq<(Position, T)>)
    requires
        writer_wf(w),
        supported(MatrixFormat::Coordinate, T::spec_kind(), w.symmetry),
        coords.len() <= usize::MAX,
        forall|i: int|
            0 <= i < coords.len() ==> (#[trigger] coords[i]).0.row < w.num_rows && coords[i].0.col
                < w.num_cols && reads_back(coords[i].1),
    ensures
        ({
            let n = coords.len() as usize;
            let (h, s1) = header_spec(read_lines(join_lines(coordinate_lines::<T>(w, coords, n))));
            let es = entries_read(coords, coordinate_mirror(w.symmetry));
            &&& h == Ok::<Header, Error>(
                written_header(w, MatrixFormat::Coordinate, T::spec_kind(), n),
            )
            &&& coordinate_reads::<T>(coordinate_start::<T>(s1, h->Ok_0), es.len() + 1).0
                == all_entries(es)
        }),
{
    let n = coords.len() as usize;
    let entries = coordinate_texts(coords);
    let mir = coordinate_mirror(w.symmetry);
    assert forall|i: int| 0 <= i < entries.len() implies no_line_feed(#[trigger] entries[i]) by {
        assert(entries[i] == coordinate_line(coords[i].0, coords[i].1));
        lemma_entry_line::<T>(coords[i], w.num_rows, w.num_cols, mir);
        lemma_no_line_ending(entries[i]);
    }
    assert(size_numbers(MatrixFormat::Coordinate, w.num_rows, w.num_cols, n) == seq![
        w.num_rows as nat,
        w.num_cols as nat,
        n as nat,
    ]);
    lemma_read_preamble(w, MatrixFormat::Coordinate, T::spec_kind(), n, entries);
    let s = read_lines(join_lines(coordinate_lines::<T>(w, coords, n)));
    let start = comment_lines(w.comment).len() + 2;
    let (h, s1) = header_spec(s);
    let c = coordinate_start::<T>(s1, h->Ok_0);
    assert forall|k: int| 0 <= k < coords.len() implies #[trigger] entry_spec::<T>(
        tokens(c.lines.lines[start + k]),
        c.num_rows,
        c.num_cols,
        c.mirror,
    ) == (Ok::<(Position, T), Error>(coords[k]), mirror_buffer(coords[k], c.mirror)) by {
        lemma_entry_line::<T>(coords[k], w.num_rows, w.num_cols, mir);
        assert(entries[k] == coordinate_line(coords[k].0, coords[k].1));
        lemma_no_line_ending(entries[k]);
        assert(s.lines[start + k] == strip_cr(entries[k]));
    }
    lemma_coordinate_reads::<T>(c, coords, start as int, 0);
    assert(coords.skip(0) =~= coords);
}

} // verus!

verus! {

// ---------------------------------------------------------------------------
// what every reader keeps
// ---------------------------------------------------------------------------
/// A header that reading accepts: a combination that the format allows, a
/// square matrix for a symmetry, and no entry count for an array.
pub open spec fn header_ok(h: Header) -> bool {
    &&& supported(h.format, h.field, h.symmetry)
    &&& h.symmetry != Symmetry::General ==> h.num_rows == h.num_cols
    &&& h.format == MatrixFormat::Array ==> h.num_entries == 0
}

/// Every header that is read from any lines is one that the format allows.
pub proof fn law_header_ok(s: LinesState)
    ensures
        header_spec(s).0 matches Ok(h) ==> header_ok(h),
{
}

/// A reader of a sparse matrix in a consistent state: mirrored entries only
/// for a square matrix, and a waiting entry within the matrix.
pub open spec fn coordinate_wf<T>(s: CoordinateState<T>) -> bool {
    &&& s.mirror is Some ==> s.num_rows == s.num_cols
    &&& s.buffer matches Some(b) ==> b.0.row < s.num_rows && b.0.col < s.num_cols
}

/// The reader of a sparse matrix starts consistent after an accepted header.
pub proof fn law_coordinate_start_wf<T>(lines: LinesState, h: Header)
    requires
        header_ok(h),
    ensures
        coordinate_wf(coordinate_start::<T>(lines, h)),
{
}

/// Every entry that a sparse matrix reader reads from a line lies within the
/// matrix (its one-based indices are checked), in any state; in a consistent
/// state so does every mirrored entry, and the reader stays consistent.
pub proof fn law_coordinate_entries_in_bounds<T: Field>(s: CoordinateState<T>)
    ensures
        s.buffer is None ==> (coordinate_step::<T>(s).0 matches Some(Ok(e)) ==> e.0.row
            < s.num_rows && e.0.col < s.num_cols),
        coordinate_wf(s) ==> (coordinate_step::<T>(s).0 matches Some(Ok(e)) ==> e.0.row
            < s.num_rows && e.0.col < s.num_cols),
        coordinate_wf(s) ==> coordinate_wf(coordinate_step::<T>(s).1),
        coordinate_step::<T>(s).1.num_rows == s.num_rows,
        coordinate_step::<T>(s).1.num_cols == s.num_cols,
{
    if s.buffer is None && s.num_left > 0 {
        if let Some(Ok(line)) = s.lines.current() {
            let t = tokens(line);
            if index_ok(t[0], s.num_rows) && index_ok(t[1], s.num_cols) {
                assert(parse_usize_spec(t[0])->Ok_0 - 1 < s.num_rows);
                assert(parse_usize_spec(t[1])->Ok_0 - 1 < s.num_cols);
            }
        }
    }
}

/// Reading a run that completes gives as many values as were asked for.
proof fn lemma_read_run_len<T: Field>(s: LinesState, n: nat)
    ensures
        read_run::<T>(s, n).1 is Complete ==> read_run::<T>(s, n).0.len() == n,
    decreases n,
{
    if n > 0 {
        lemma_read_run_len::<T>(s.advance(), (n - 1) as nat);
    }
}

/// the number of entries of each column of a dense matrix reader
pub open spec fn column_height<T>(s: ArrayReaderState<T>) -> nat {
    match s {
        ArrayReaderState::General(g) => g.num_rows as nat,
        ArrayReaderState::LowerTriangleDiagonalInclusive(l) => l.size as nat,
        ArrayReaderState::LowerTriangleDiagonalExclusive(l) => l.size as nat,
    }
}

/// Every column that a dense matrix reader gives has the height of the
/// matrix, and the height does not change.
pub proof fn law_array_column_height<T: Field>(s: ArrayReaderState<T>)
    ensures
        array_step::<T>(s).0 matches Some(Ok(col)) ==> col.len() == column_height(s),
        column_height(array_step::<T>(s).1) == column_height(s),
{
    if let ArrayReaderState::General(g) = s {
        lemma_read_run_len::<T>(g.lines, g.num_rows as nat);
    }
}

} // verus!

verus! {

/// A sparse matrix of integers that is written reads back as written (see
/// [`law_coordinate_roundtrip`]), for any entries within the matrix.
pub proof fn law_integer_coordinate_roundtrip(w: WriterState, coords: Seq<(Position, i64)>)
    requires
        writer_wf(w),
        w.symmetry != Symmetry::Hermitian,
        coords.len() <= usize::MAX,
        forall|i: int|
            0 <= i < coords.len() ==> (#[trigger] coords[i]).0.row < w.num_rows && coords[i].0.col
                < w.num_cols,
    ensures
        ({
            let n = coords.len() as usize;
            let (h, s1) = header_spec(
                read_lines(join_lines(coordinate_lines::<i64>(w, coords, n))),
            );
            let es = entries_read(coords, coordinate_mirror(w.symmetry));
            &&& h == Ok::<Header, Error>(
                written_header(w, MatrixFormat::Coordinate, FieldKind::Integer, n),
            )
            &&& coordinate_reads::<i64>(coordinate_start::<i64>(s1, h->Ok_0), es.len() + 1).0
                == all_entries(es)
        }),
{
    assert forall|i: int| 0 <= i < coords.len() implies (#[trigger] coords[i]).0.row < w.num_rows
        && coords[i].0.col < w.num_cols && reads_back(coords[i].1) by {
        law_integer_reads_back(coords[i].1);
    }
    law_coordinate_roundtrip::<i64>(w, coords);
}

} // verus!

verus! {

// ---------------------------------------------------------------------------
// case
// ---------------------------------------------------------------------------
/// the lines with each ASCII upper-case letter in lower case
pub open spec fn lowercase_lines(s: LinesState) -> LinesState {
    LinesState { lines: s.lines.map_values(|l: Seq<u8>| lowercase(l)), ..s }
}

proof fn lemma_lowercase_idempotent(l: Seq<u8>)
    ensures
        lowercase(lowercase(l)) == lowercase(l),
        is_comment(lowercase(l)) == is_comment(l),
{
    assert(lowercase(lowercase(l)) =~= lowercase(l));
}

proof fn lemma_lowercase_skip_comments(s: LinesState)
    ensures
        skip_comments(lowercase_lines(s)) == lowercase_lines(skip_comments(s)),
    decreases s.lines.len() - s.pos,
{
    if s.pos < s.lines.len() {
        lemma_lowercase_idempotent(s.lines[s.pos as int]);
        if is_comment(s.lines[s.pos as int]) {
            assert(lowercase_lines(s).advance() == lowercase_lines(s.advance()));
            lemma_lowercase_skip_comments(s.advance());
        }
    }
}

/// The format is case insensitive: the header of lines in lower case is the
/// header of the lines as they are, and reading it leaves the same place.
pub proof fn law_header_case_insensitive(s: LinesState)
    ensures
        header_spec(lowercase_lines(s)).0 == header_spec(s).0,
        header_spec(lowercase_lines(s)).1 == lowercase_lines(header_spec(s).1),
{
    let ls = lowercase_lines(s);
    if s.pos < s.lines.len() {
        let line = s.lines[s.pos as int];
        lemma_lowercase_idempotent(line);
        if !s.failed.contains(s.pos as int) {
            assert(ls.current() == Some(Ok::<Seq<u8>, Error>(lowercase(line))));
        }
        assert(ls.advance() == lowercase_lines(s.advance()));
        lemma_lowercase_skip_comments(s.advance());
        let s2 = skip_comments(s.advance());
        if s2.pos < s2.lines.len() && !s2.failed.contains(s2.pos as int) {
            lemma_lowercase_idempotent(s2.lines[s2.pos as int]);
            assert(lowercase_lines(s2).current() == Some(
                Ok::<Seq<u8>, Error>(lowercase(s2.lines[s2.pos as int])),
            ));
        }
        assert(lowercase_lines(s2).advance() == lowercase_lines(s2.advance()));
    }
}

} // verus!

verus! {

// ---------------------------------------------------------------------------
// ASCII
// ---------------------------------------------------------------------------
/// every byte is ASCII
pub open spec fn is_ascii(s: Seq<u8>) -> bool {
    forall|i: int| 0 <= i < s.len() ==> #[trigger] s[i] < 0x80
}

proof fn lemma_ascii_concat(a: Seq<u8>, b: Seq<u8>)
    requires
        is_ascii(a),
        is_ascii(b),
    ensures
        is_ascii(a + b),
{
    assert forall|i: int| 0 <= i < (a + b).len() implies #[trigger] (a + b)[i] < 0x80 by {
        if i >= a.len() {
            assert((a + b)[i] == b[i - a.len()]);
        }
    }
}

proof fn lemma_join_ascii(ls: Seq<Seq<u8>>)
    requires
        forall|i: int| 0 <= i < ls.len() ==> is_ascii(#[trigger] ls[i]),
    ensures
        is_ascii(join_lines(ls)),
    decreases ls.len(),
{
    if ls.len() > 0 {
        lemma_join_ascii(ls.drop_last());
        assert(is_ascii(ls[ls.len() - 1]));
        lemma_ascii_concat(join_lines(ls.drop_last()), ls.last());
        lemma_ascii_concat(join_lines(ls.drop_last()) + ls.last(), seq![0x0au8]);
    }
}

proof fn lemma_decimal_ascii(n: nat)
    ensures
        is_ascii(decimal(n)),
{
    lemma_decimal_digits(n);
}

proof fn lemma_numbers_ascii(ns: Seq<nat>)
    ensures
        is_ascii(numbers_line(ns)),
    decreases ns.len(),
{
    if ns.len() == 1 {
        lemma_decimal_ascii(ns[0]);
    } else if ns.len() > 1 {
        lemma_numbers_ascii(ns.drop_last());
        lemma_decimal_ascii(ns.last());
        lemma_ascii_concat(numbers_line(ns.drop_last()), seq![0x20u8]);
        lemma_ascii_concat(numbers_line(ns.drop_last()) + seq![0x20u8], decimal(ns.last()));
    }
}

proof fn lemma_header_line_ascii(f: MatrixFormat, k: FieldKind, s: Symmetry)
    ensures
        is_ascii(header_line(f, k, s)),
{
    let sp = seq![0x20u8];
    assert(is_ascii(banner_text()));
    assert(is_ascii(sp));
    assert(is_ascii(matrix_name()));
    assert(is_ascii(format_name(f)));
    assert(is_ascii(kind_name(k)));
    assert(is_ascii(symmetry_name(s)));
    lemma_ascii_concat(banner_text(), sp);
    lemma_ascii_concat(banner_text() + sp, matrix_name());
    lemma_ascii_concat(banner_text() + sp + matrix_name(), sp);
    lemma_ascii_concat(banner_text() + sp + matrix_name() + sp, format_name(f));
    lemma_ascii_concat(banner_text() + sp + matrix_name() + sp + format_name(f), sp);
    lemma_ascii_concat(banner_text() + sp + matrix_name() + sp + format_name(f) + sp, kind_name(k));
    lemma_ascii_concat(
        banner_text() + sp + matrix_name() + sp + format_name(f) + sp + kind_name(k),
        sp,
    );
    lemma_ascii_concat(
        banner_text() + sp + matrix_name() + sp + format_name(f) + sp + kind_name(k) + sp,
        symmetry_name(s),
    );
}

/// The lines of an ASCII text are ASCII.
proof fn lemma_text_lines_ascii(s: Seq<u8>)
    requires
        is_ascii(s),
    ensures
        forall|i: int| 0 <= i < text_lines(s).len() ==> is_ascii(#[trigger] text_lines(s)[i]),
    decreases s.len(),
{
    if s.len() > 0 {
        lemma_line_len_bound(s);
        let n = line_len(s) as int;
        if n < s.len() {
            let rest = s.skip(n + 1);
            assert forall|j: int| 0 <= j < rest.len() implies #[trigger] rest[j] < 0x80 by {
                assert(rest[j] == s[n + 1 + j]);
            }
            lemma_text_lines_ascii(rest);
            let first = strip_cr(s.take(n));
            assert forall|j: int| 0 <= j < first.len() implies #[trigger] first[j] < 0x80 by {
                assert(first[j] == s[j]);
            }
            assert forall|i: int| 0 <= i < text_lines(s).len() implies is_ascii(
                #[trigger] text_lines(s)[i],
            ) by {
                if i > 0 {
                    assert(text_lines(s)[i] == text_lines(rest)[i - 1]);
                }
            }
        }
    }
}

proof fn lemma_preamble_ascii(w: WriterState, f: MatrixFormat, k: FieldKind, ns: Seq<nat>)
    requires
        forall|i: int| 0 <= i < w.comment.len() ==> is_ascii(#[trigger] w.comment[i]),
    ensures
        forall|i: int|
            0 <= i < preamble_lines(w, f, k, ns).len() ==> is_ascii(
                #[trigger] preamble_lines(w, f, k, ns)[i],
            ),
{
    let p = preamble_lines(w, f, k, ns);
    let cl = comment_lines(w.comment);
    lemma_header_line_ascii(f, k, w.symmetry);
    lemma_numbers_ascii(ns);
    assert forall|i: int| 0 <= i < p.len() implies is_ascii(#[trigger] p[i]) by {
        if i == 0 {
            assert(p[i] == header_line(f, k, w.symmetry));
        } else if i <= cl.len() {
            let c = w.comment[i - 1];
            assert(p[i] == seq![0x25u8] + c);
            lemma_ascii_concat(seq![0x25u8], c);
        } else {
            assert(p[i] == numbers_line(ns));
        }
    }
}

/// An ASCII comment gives ASCII comment lines.
pub proof fn law_comment_lines_ascii(c: Seq<u8>)
    requires
        is_ascii(c),
    ensures
        forall|i: int|
            0 <= i < comment_text_lines(c).len() ==> is_ascii(#[trigger] comment_text_lines(c)[i]),
{
    lemma_text_lines_ascii(c);
    assert forall|i: int| 0 <= i < comment_text_lines(c).len() implies is_ascii(
        #[trigger] comment_text_lines(c)[i],
    ) by {
        if i < text_lines(c).len() {
            assert(comment_text_lines(c)[i] == text_lines(c)[i]);
        }
    }
}

/// The text of a dense matrix that is written is pure ASCII, where the comment
/// lines and the texts of the entries are.
pub proof fn law_array_text_ascii<T: Field>(w: WriterState, m: Seq<Seq<T>>)
    requires
        is_matrix(m, w.num_rows as nat, w.num_cols as nat),
        forall|i: int| 0 <= i < w.comment.len() ==> is_ascii(#[trigger] w.comment[i]),
        forall|r: int, c: int|
            0 <= r < m.len() && 0 <= c < m[r].len() ==> is_ascii(#[trigger] T::spec_write(m[r][c])),
    ensures
        is_ascii(join_lines(array_lines::<T>(w, m))),
{
    let ns = seq![w.num_rows as nat, w.num_cols as nat];
    let pre = preamble_lines(w, MatrixFormat::Array, T::spec_kind(), ns);
    let ps = array_positions(w.symmetry, w.num_rows as nat, w.num_cols as nat);
    let es = entry_texts(m, ps);
    lemma_preamble_ascii(w, MatrixFormat::Array, T::spec_kind(), ns);
    lemma_positions_in_bounds(w.symmetry, w.num_rows as nat, w.num_cols as nat);
    let ls = array_lines::<T>(w, m);
    assert forall|i: int| 0 <= i < ls.len() implies is_ascii(#[trigger] ls[i]) by {
        if i < pre.len() {
            assert(ls[i] == pre[i]);
        } else {
            let p = ps[i - pre.len()];
            assert(ls[i] == T::spec_write(m[p.row as int][p.col as int]));
        }
    }
    lemma_join_ascii(ls);
}

/// The text of a sparse matrix that is written is pure ASCII, where the
/// comment lines and the texts of the entries are.
pub proof fn law_coordinate_text_ascii<T: Field>(
    w: WriterState,
    coords: Seq<(Position, T)>,
    num_entries: usize,
)
    requires
        forall|i: int| 0 <= i < w.comment.len() ==> is_ascii(#[trigger] w.comment[i]),
        forall|i: int| 0 <= i < coords.len() ==> is_ascii(#[trigger] T::spec_write(coords[i].1)),
    ensures
        is_ascii(join_lines(coordinate_lines::<T>(w, coords, num_entries))),
{
    let ns = seq![w.num_rows as nat, w.num_cols as nat, num_entries as nat];
    let pre = preamble_lines(w, MatrixFormat::Coordinate, T::spec_kind(), ns);
    lemma_preamble_ascii(w, MatrixFormat::Coordinate, T::spec_kind(), ns);
    let ls = coordinate_lines::<T>(w, coords, num_entries);
    assert forall|i: int| 0 <= i < ls.len() implies is_ascii(#[trigger] ls[i]) by {
        if i < pre.len() {
            assert(ls[i] == pre[i]);
        } else {
            let e = coords[i - pre.len()];
            let sp = seq![0x20u8];
            let dr = decimal((e.0.row + 1) as nat);
            let dc = decimal((e.0.col + 1) as nat);
            assert(ls[i] == coordinate_line(e.0, e.1));
            assert(is_ascii(T::spec_write(e.1)));
            lemma_decimal_ascii((e.0.row + 1) as nat);
            lemma_decimal_ascii((e.0.col + 1) as nat);
            assert(is_ascii(sp));
            lemma_ascii_concat(dr, sp);
            lemma_ascii_concat(dr + sp, dc);
            lemma_ascii_concat(dr + sp + dc, sp);
            lemma_ascii_concat(dr + sp + dc + sp, T::spec_write(e.1));
        }
    }
    lemma_join_ascii(ls);
}

} // verus!

verus! {

// ---------------------------------------------------------------------------
// readers end
// ---------------------------------------------------------------------------
/// the columns that a dense matrix reader has still to give
pub open spec fn columns_left<T>(s: ArrayReaderState<T>) -> int {
    match s {
        ArrayReaderState::General(g) => g.num_cols - g.current_col,
        ArrayReaderState::LowerTriangleDiagonalInclusive(l) => l.size - l.current_col,
        ArrayReaderState::LowerTriangleDiagonalExclusive(l) => l.size - l.current_col,
    }
}

/// A dense matrix reader gives one result per column, whatever the lines
/// hold, and then the end, again and again.
pub proof fn law_array_reader_ends<T: Field>(s: ArrayReaderState<T>)
    ensures
        columns_left(s) <= 0 ==> array_step::<T>(s) == (
            None::<Result<Seq<T>, Error>>,
            s,
        ),
        columns_left(s) > 0 ==> array_step::<T>(s).0 is Some && columns_left(array_step::<T>(s).1)
            == columns_left(s) - 1,
{
}

/// a bound on the results that a sparse matrix reader has still to give
pub open spec fn entries_left<T>(s: CoordinateState<T>) -> int {
    2 * s.num_left + if s.buffer is Some {
        1int
    } else {
        0int
    }
}

/// A sparse matrix reader gives at most two results per entry line (the
/// entry and its mirror), whatever the lines hold, and then the end, again
/// and again.
pub proof fn law_coordinate_reader_ends<T: Field>(s: CoordinateState<T>)
    ensures
        entries_left(s) == 0 ==> coordinate_step::<T>(s) == (
            None::<Result<(Position, T), Error>>,
            s,
        ),
        entries_left(s) > 0 ==> coordinate_step::<T>(s).0 is Some && 0 <= entries_left(
            coordinate_step::<T>(s).1,
        ) < entries_left(s),
{
}

} // verus!

verus! {

// ---------------------------------------------------------------------------
// what reading depends on
// ---------------------------------------------------------------------------
/// the `i`-th line still to read, and whether it failed
pub open spec fn rest_at(s: LinesState, i: int) -> (Seq<u8>, bool) {
    (s.lines[s.pos + i], s.failed.contains(s.pos + i))
}

/// Two states of lines with the same lines still to read, failing alike.
pub open spec fn same_rest(a: LinesState, b: LinesState) -> bool {
    &&& a.pos <= a.lines.len()
    &&& b.pos <= b.lines.len()
    &&& a.lines.len() - a.pos == b.lines.len() - b.pos
    &&& forall|i: int| 0 <= i < a.lines.len() - a.pos ==> #[trigger] rest_at(a, i) == rest_at(b, i)
}

proof fn lemma_same_rest_step(a: LinesState, b: LinesState)
    requires
        same_rest(a, b),
    ensures
        a.current() == b.current(),
        same_rest(a.advance(), b.advance()),
{
    if a.pos < a.lines.len() {
        assert(rest_at(a, 0) == rest_at(b, 0));
        let a1 = a.advance();
        let b1 = b.advance();
        assert forall|i: int| 0 <= i < a1.lines.len() - a1.pos implies #[trigger] rest_at(a1, i)
            == rest_at(b1, i) by {
            assert(rest_at(a, i + 1) == rest_at(b, i + 1));
        }
    }
}

proof fn lemma_same_rest_run<T: Field>(a: LinesState, b: LinesState, n: nat)
    requires
        same_rest(a, b),
    ensures
        read_run::<T>(a, n).0 == read_run::<T>(b, n).0,
        read_run::<T>(a, n).1 == read_run::<T>(b, n).1,
        same_rest(read_run::<T>(a, n).2, read_run::<T>(b, n).2),
    decreases n,
{
    lemma_same_rest_step(a, b);
    if n > 0 {
        lemma_same_rest_run::<T>(a.advance(), b.advance(), (n - 1) as nat);
    }
}

proof fn lemma_same_rest_skip(a: LinesState, b: LinesState)
    requires
        same_rest(a, b),
    ensures
        same_rest(skip_comments(a), skip_comments(b)),
    decreases a.lines.len() - a.pos,
{
    lemma_same_rest_step(a, b);
    if a.current() matches Some(Ok(l)) && is_comment(l) {
        lemma_same_rest_skip(a.advance(), b.advance());
    }
}

/// two dense matrix readers alike but for lines with the same rest
pub open spec fn array_same<T>(x: ArrayReaderState<T>, y: ArrayReaderState<T>) -> bool {
    match (x, y) {
        (ArrayReaderState::General(g), ArrayReaderState::General(k)) => same_rest(g.lines, k.lines)
            && k == GeneralArrayState { lines: k.lines, ..g },
        (
            ArrayReaderState::LowerTriangleDiagonalInclusive(l),
            ArrayReaderState::LowerTriangleDiagonalInclusive(k),
        ) => same_rest(l.lines, k.lines) && k == LowerTriState { lines: k.lines, ..l },
        (
            ArrayReaderState::LowerTriangleDiagonalExclusive(l),
            ArrayReaderState::LowerTriangleDiagonalExclusive(k),
        ) => same_rest(l.lines, k.lines) && k == LowerTriState { lines: k.lines, ..l },
        _ => false,
    }
}

proof fn lemma_lower_fill_same<T: Field>(
    l: LowerTriState<T>,
    k: LowerTriState<T>,
    col: Seq<T>,
    a: LinesState,
    b: LinesState,
)
    requires
        k == (LowerTriState { lines: k.lines, ..l }),
        same_rest(a, b),
    ensures
        lower_fill(l, col, a).0 == lower_fill(k, col, b).0,
        ({
            let l2 = lower_fill(l, col, a).1;
            let k2 = lower_fill(k, col, b).1;
            same_rest(l2.lines, k2.lines) && k2 == (LowerTriState { lines: k2.lines, ..l2 })
        }),
{
    lemma_same_rest_run::<T>(a, b, l.pending.drop_last().len());
}

proof fn lemma_array_same_step<T: Field>(x: ArrayReaderState<T>, y: ArrayReaderState<T>)
    requires
        array_same(x, y),
    ensures
        array_step::<T>(x).0 == array_step::<T>(y).0,
        array_same(array_step::<T>(x).1, array_step::<T>(y).1),
{
    match (x, y) {
        (ArrayReaderState::General(g), ArrayReaderState::General(k)) => {
            lemma_same_rest_run::<T>(g.lines, k.lines, g.num_rows as nat);
        },
        (
            ArrayReaderState::LowerTriangleDiagonalInclusive(l),
            ArrayReaderState::LowerTriangleDiagonalInclusive(k),
        ) => {
            lemma_same_rest_step(l.lines, k.lines);
            if l.current_col < l.size {
                if let Some(Ok(line)) = l.lines.current() {
                    if let Ok(d) = T::spec_read(tokens(line)) {
                        lemma_lower_fill_same::<T>(
                            l,
                            k,
                            l.pending.last().push(d),
                            l.lines.advance(),
                            k.lines.advance(),
                        );
                    }
                }
            }
        },
        (
            ArrayReaderState::LowerTriangleDiagonalExclusive(l),
            ArrayReaderState::LowerTriangleDiagonalExclusive(k),
        ) => {
            if l.current_col < l.size {
                lemma_lower_fill_same::<T>(
                    l,
                    k,
                    l.pending.last().push(T::spec_zero()),
                    l.lines,
                    k.lines,
                );
            }
        },
        _ => {},
    }
}

proof fn lemma_array_same_reads<T: Field>(x: ArrayReaderState<T>, y: ArrayReaderState<T>, n: nat)
    requires
        array_same(x, y),
    ensures
        array_reads::<T>(x, n).0 == array_reads::<T>(y, n).0,
    decreases n,
{
    if n > 0 {
        lemma_array_same_step::<T>(x, y);
        lemma_array_same_reads::<T>(array_step::<T>(x).1, array_step::<T>(y).1, (n - 1) as nat);
    }
}

proof fn lemma_coordinate_same_reads<T: Field>(x: CoordinateState<T>, y: CoordinateState<T>, n: nat)
    requires
        same_rest(x.lines, y.lines),
        y == (CoordinateState { lines: y.lines, ..x }),
    ensures
        coordinate_reads::<T>(x, n).0 == coordinate_reads::<T>(y, n).0,
    decreases n,
{
    if n > 0 {
        lemma_same_rest_step(x.lines, y.lines);
        let x2 = coordinate_step::<T>(x).1;
        let y2 = coordinate_step::<T>(y).1;
        assert(same_rest(x2.lines, y2.lines));
        lemma_coordinate_same_reads::<T>(x2, y2, (n - 1) as nat);
    }
}

/// Reading depends only on the lines still to read: readers started on lines
/// with the same rest give the same results, one after another.
pub proof fn law_same_rest_reads<T: Field>(a: LinesState, b: LinesState, h: Header, n: nat)
    requires
        same_rest(a, b),
    ensures
        array_reads::<T>(array_start::<T>(a, h), n).0 == array_reads::<T>(
            array_start::<T>(b, h),
            n,
        ).0,
        coordinate_reads::<T>(coordinate_start::<T>(a, h), n).0 == coordinate_reads::<T>(
            coordinate_start::<T>(b, h),
            n,
        ).0,
{
    lemma_array_same_reads::<T>(array_start::<T>(a, h), array_start::<T>(b, h), n);
    lemma_coordinate_same_reads::<T>(coordinate_start::<T>(a, h), coordinate_start::<T>(b, h), n);
}

/// Two headers whose first lines read alike in lower case, followed (after
/// their comments) by lines with the same rest, read alike.
proof fn lemma_header_same(a: LinesState, b: LinesState)
    requires
        a.pos < a.lines.len(),
        b.pos < b.lines.len(),
        a.failed.contains(a.pos as int) == b.failed.contains(b.pos as int),
        lowercase(a.lines[a.pos as int]) == lowercase(b.lines[b.pos as int]),
        same_rest(skip_comments(a.advance()), skip_comments(b.advance())),
    ensures
        header_spec(a).0 == header_spec(b).0,
        header_spec(a).0 is Ok ==> same_rest(header_spec(a).1, header_spec(b).1),
{
    lemma_same_rest_step(skip_comments(a.advance()), skip_comments(b.advance()));
}

/// Every header and every reader after it give the same results for two
/// line states whose headers read alike and leave the same rest.
pub open spec fn reads_alike<T: Field>(a: LinesState, b: LinesState) -> bool {
    &&& header_spec(a).0 == header_spec(b).0
    &&& header_spec(a).0 matches Ok(h) ==> forall|n: nat|
        #![trigger array_reads::<T>(array_start::<T>(header_spec(a).1, h), n)]
        #![trigger coordinate_reads::<T>(coordinate_start::<T>(header_spec(a).1, h), n)]
        array_reads::<T>(array_start::<T>(header_spec(a).1, h), n).0 == array_reads::<T>(
            array_start::<T>(header_spec(b).1, h),
            n,
        ).0 && coordinate_reads::<T>(coordinate_start::<T>(header_spec(a).1, h), n).0
            == coordinate_reads::<T>(coordinate_start::<T>(header_spec(b).1, h), n).0
}

proof fn lemma_reads_alike<T: Field>(a: LinesState, b: LinesState)
    requires
        header_spec(a).0 == header_spec(b).0,
        header_spec(a).0 is Ok ==> same_rest(header_spec(a).1, header_spec(b).1),
    ensures
        reads_alike::<T>(a, b),
{
    if let Ok(h) = header_spec(a).0 {
        assert forall|n: nat|
            array_reads::<T>(array_start::<T>(header_spec(a).1, h), n).0 == array_reads::<T>(
                array_start::<T>(header_spec(b).1, h),
                n,
            ).0 && coordinate_reads::<T>(coordinate_start::<T>(header_spec(a).1, h), n).0
                == coordinate_reads::<T>(coordinate_start::<T>(header_spec(b).1, h), n).0 by {
            law_same_rest_reads::<T>(header_spec(a).1, header_spec(b).1, h, n);
        }
    }
}

/// the lines with a different text for the line at `pos` (the header line)
pub open spec fn with_header_line(s: LinesState, line: Seq<u8>) -> LinesState {
    LinesState { lines: s.lines.update(s.pos as int, line), ..s }
}

/// The header line is case insensitive: a header line that differs only in
/// the case of its letters gives the same header and the same reader results.
pub proof fn law_header_line_case<T: Field>(s: LinesState, line: Seq<u8>)
    requires
        s.pos < s.lines.len(),
        lowercase(line) == lowercase(s.lines[s.pos as int]),
    ensures
        reads_alike::<T>(with_header_line(s, line), s),
{
    let t = with_header_line(s, line);
    let t1 = t.advance();
    let s1 = s.advance();
    assert forall|i: int| 0 <= i < t1.lines.len() - t1.pos implies #[trigger] rest_at(t1, i)
        == rest_at(s1, i) by {
        assert(t1.lines[t1.pos + i] == s1.lines[s1.pos + i]);
    }
    lemma_same_rest_skip(t1, s1);
    lemma_header_same(t, s);
    lemma_reads_alike::<T>(t, s);
}

/// the lines with the lines `cs` put right after the header line (at `pos`)
pub open spec fn with_comments(s: LinesState, cs: Seq<Seq<u8>>) -> LinesState {
    let p = s.pos + 1int;
    LinesState {
        lines: s.lines.take(p) + cs + s.lines.skip(p),
        failed: Set::new(
            |i: int| (i < p && s.failed.contains(i)) || (i >= p + cs.len() && s.failed.contains(
                i - cs.len(),
            )),
        ),
        pos: s.pos,
    }
}

proof fn lemma_skip_n(s: LinesState, n: nat)
    requires
        s.pos + n <= s.lines.len(),
        forall|i: int|
            #![trigger s.lines[i]]
            #![trigger s.failed.contains(i)]
            s.pos <= i < s.pos + n ==> !s.failed.contains(i) && is_comment(s.lines[i]),
    ensures
        skip_comments(s) == skip_comments(LinesState { pos: s.pos + n, ..s }),
    decreases n,
{
    if n > 0 {
        let p = s.pos as int;
        assert(s.pos <= p < s.pos + n);
        assert(!s.failed.contains(p) && is_comment(s.lines[p]));
        let s1 = s.advance();
        assert forall|i: int|
            #![trigger s1.lines[i]]
            #![trigger s1.failed.contains(i)]
            s1.pos <= i < s1.pos + (n - 1) implies !s1.failed.contains(i) && is_comment(
                s1.lines[i],
            ) by {
            assert(s.pos <= i < s.pos + n);
        }
        lemma_skip_n(s1, (n - 1) as nat);
        assert(LinesState { pos: s1.pos + (n - 1) as nat, ..s1 } == LinesState { pos: s.pos + n, ..s });
    }
}

/// Comment lines before the content header are ignored: comment lines put
/// after the header line give the same header and the same reader results.
pub proof fn law_comments_ignored<T: Field>(s: LinesState, cs: Seq<Seq<u8>>)
    requires
        s.pos < s.lines.len(),
        forall|i: int| 0 <= i < cs.len() ==> is_comment(#[trigger] cs[i]),
    ensures
        reads_alike::<T>(with_comments(s, cs), s),
{
    let t = with_comments(s, cs);
    let p = s.pos + 1;
    let k = cs.len();
    assert(t.lines[s.pos as int] == s.lines[s.pos as int]);
    assert(t.failed.contains(s.pos as int) == s.failed.contains(s.pos as int));
    let t1 = t.advance();
    assert forall|i: int| t1.pos <= i < t1.pos + k implies !t1.failed.contains(i) && is_comment(
        #[trigger] t1.lines[i],
    ) by {
        assert(t1.lines[i] == cs[i - p]);
    }
    lemma_skip_n(t1, k);
    let t2 = LinesState { pos: t1.pos + k, ..t1 };
    let s1 = s.advance();
    assert forall|i: int| 0 <= i < t2.lines.len() - t2.pos implies #[trigger] rest_at(t2, i)
        == rest_at(s1, i) by {
        assert(t2.lines[t2.pos + i] == s1.lines[s1.pos + i]);
        assert(t2.failed.contains(t2.pos + i) == s1.failed.contains(s1.pos + i));
    }
    lemma_same_rest_skip(t2, s1);
    lemma_header_same(t, s);
    lemma_reads_alike::<T>(t, s);
}

} // verus!

verus! {

/// the header that a header line and a content header line announce
pub open spec fn announced_header(
    f: MatrixFormat,
    k: FieldKind,
    sym: Symmetry,
    rows: usize,
    cols: usize,
    entries: usize,
) -> Header {
    Header {
        format: f,
        field: k,
        symmetry: sym,
        num_rows: rows,
        num_cols: cols,
        num_entries: if f == MatrixFormat::Array {
            0
        } else {
            entries
        },
    }
}

/// The headers that reading accepts, exactly. For a header line
/// `%%MatrixMarket matrix <format> <field> <symmetry> ...` (in any case) and,
/// after the comment lines, a content header line that starts with the
/// numbers of rows and columns (and of entries, for coordinates), in any
/// spelling that reads as them, the header is read if and only if the field
/// and symmetry words are known, a symmetry other than general comes with a
/// square matrix, and the format allows the combination of format, field and
/// symmetry. Otherwise the error is `UnsupportedHeaderOptions` for an unknown
/// symmetry, else `NotSquare` for a symmetry on a matrix that is not square,
/// else `UnsupportedHeaderOptions`.
pub proof fn law_header_accepted(
    s: LinesState,
    f: MatrixFormat,
    rows: usize,
    cols: usize,
    entries: usize,
)
    requires
        (s.current() matches Some(Ok(l)) && tokens(lowercase(l)).len() >= 5 && tokens(
            lowercase(l),
        )[0] == banner_name() && tokens(lowercase(l))[1] == matrix_name() && tokens(
            lowercase(l),
        )[2] == format_name(f)),
        (skip_comments(s.advance()).current() matches Some(Ok(c)) && tokens(lowercase(c)).len()
            >= 2 && parse_usize_spec(tokens(lowercase(c))[0]) == Ok::<usize, IntErrorKind>(rows)
            && parse_usize_spec(tokens(lowercase(c))[1]) == Ok::<usize, IntErrorKind>(cols) && (f
            == MatrixFormat::Coordinate ==> tokens(lowercase(c)).len() >= 3 && parse_usize_spec(
            tokens(lowercase(c))[2],
        ) == Ok::<usize, IntErrorKind>(entries))),
    ensures
        ({
            let t = tokens(lowercase(s.current()->Some_0->Ok_0));
            header_spec(s).0 == match (kind_from_name(t[3]), symmetry_from_name(t[4])) {
                (_, None) => Err::<Header, Error>(Error::UnsupportedHeaderOptions),
                (k, Some(sym)) => if sym != Symmetry::General && rows != cols {
                    Err::<Header, Error>(Error::NotSquare)
                } else {
                    match k {
                        Some(k) => if supported(f, k, sym) {
                            Ok::<Header, Error>(announced_header(f, k, sym, rows, cols, entries))
                        } else {
                            Err::<Header, Error>(Error::UnsupportedHeaderOptions)
                        },
                        None => Err::<Header, Error>(Error::UnsupportedHeaderOptions),
                    }
                },
            }
        }),
{
    lemma_names_read_back(f, FieldKind::Real, Symmetry::General);
}

/// The headers of known words and numbers written in decimal: read if and
/// only if a symmetry other than general comes with a square matrix and the
/// format allows the combination.
pub proof fn law_header_accepted_words(
    s: LinesState,
    f: MatrixFormat,
    k: FieldKind,
    sym: Symmetry,
    rows: usize,
    cols: usize,
    entries: usize,
)
    requires
        (s.current() matches Some(Ok(l)) && tokens(lowercase(l)) == seq![
            banner_name(),
            matrix_name(),
            format_name(f),
            kind_name(k),
            symmetry_name(sym),
        ]),
        (skip_comments(s.advance()).current() matches Some(Ok(c)) && tokens(lowercase(c))
            == size_numbers(f, rows, cols, entries).map_values(|n: nat| decimal(n))),
    ensures
        header_spec(s).0 == if (sym == Symmetry::General || rows == cols) && supported(f, k, sym) {
            Ok::<Header, Error>(announced_header(f, k, sym, rows, cols, entries))
        } else if sym != Symmetry::General && rows != cols {
            Err::<Header, Error>(Error::NotSquare)
        } else {
            Err::<Header, Error>(Error::UnsupportedHeaderOptions)
        },
{
    lemma_names_read_back(f, k, sym);
    lemma_usize_roundtrip(rows);
    lemma_usize_roundtrip(cols);
    lemma_usize_roundtrip(entries);
    let c = skip_comments(s.advance()).current()->Some_0->Ok_0;
    let ct = tokens(lowercase(c));
    assert(ct[0] == decimal(rows as nat));
    assert(ct[1] == decimal(cols as nat));
    if f == MatrixFormat::Coordinate {
        assert(ct[2] == decimal(entries as nat));
    }
    law_header_accepted(s, f, rows, cols, entries);
}

} // verus!

verus! {

/// A data line of a sparse matrix that holds the entry `e`: its row and
/// column, one-based and within the matrix, then the value.
pub open spec fn entry_line_holds<T: Field>(
    line: Seq<u8>,
    e: (Position, T),
    num_rows: usize,
    num_cols: usize,
) -> bool {
    let t = tokens(line);
    &&& t.len() >= 2
    &&& e.0.row < num_rows
    &&& e.0.col < num_cols
    &&& parse_usize_spec(t[0]) == Ok::<usize, IntErrorKind>((e.0.row + 1) as usize)
    &&& parse_usize_spec(t[1]) == Ok::<usize, IntErrorKind>((e.0.col + 1) as usize)
    &&& T::spec_read(t.skip(2)) == Ok::<T, Error>(e.1)
}

/// A sparse matrix is read from any lines that hold its entries, one per
/// line, as many as the header announces: the reader gives each entry in
/// order (zero-based), followed, for a symmetry, by its mirror across the
/// diagonal when it lies off the diagonal, then the end.
pub proof fn law_coordinate_reads<T: Field>(
    lines: LinesState,
    h: Header,
    coords: Seq<(Position, T)>,
)
    requires
        lines.failed == Set::<int>::empty(),
        h.num_entries == coords.len(),
        lines.pos + coords.len() <= lines.lines.len(),
        forall|k: int|
            0 <= k < coords.len() ==> entry_line_holds::<T>(
                #[trigger] lines.lines[lines.pos + k],
                coords[k],
                h.num_rows,
                h.num_cols,
            ),
    ensures
        ({
            let es = entries_read(coords, coordinate_mirror(h.symmetry));
            coordinate_reads::<T>(coordinate_start::<T>(lines, h), es.len() + 1).0 == all_entries(
                es,
            )
        }),
{
    let c = coordinate_start::<T>(lines, h);
    let start = lines.pos as int;
    assert forall|k: int| 0 <= k < coords.len() implies #[trigger] entry_spec::<T>(
        tokens(c.lines.lines[start + k]),
        c.num_rows,
        c.num_cols,
        c.mirror,
    ) == (Ok::<(Position, T), Error>(coords[k]), mirror_buffer(coords[k], c.mirror)) by {
        assert(entry_line_holds::<T>(lines.lines[lines.pos + k], coords[k], h.num_rows, h.num_cols));
        let t = tokens(lines.lines[start + k]);
        assert(index_ok(t[0], h.num_rows));
        assert(index_ok(t[1], h.num_cols));
    }
    lemma_coordinate_reads::<T>(c, coords, start, 0);
    assert(coords.skip(0) =~= coords);
}

} // verus!

verus! {

// ---------------------------------------------------------------------------
// what the symmetries, the fields and the whitespace are
// ---------------------------------------------------------------------------
/// For a symmetric matrix, of any field, the value mirrored above the
/// diagonal is the value read below it, unchanged, in both formats.
pub proof fn law_symmetric_mirror_is_identity<T: Field>(v: T)
    ensures
        mirror_value(symmetry_mirror(Symmetry::Symmetric), v) == v,
        coordinate_mirror(Symmetry::Symmetric) matches Some(m) && mirror_value(m, v) == v,
{
}

/// A symmetric dense matrix, of any field, is read as a matrix equal to its
/// transpose: from lines that hold its lower triangle, column by column, the
/// reader gives its columns (each entry above the diagonal equal to the one
/// below), then the end.
pub proof fn law_symmetric_array_reads<T: Field>(lines: LinesState, h: Header, m: Seq<Seq<T>>)
    requires
        lines.failed == Set::<int>::empty(),
        h.symmetry == Symmetry::Symmetric,
        h.num_rows == h.num_cols,
        is_matrix(m, h.num_rows as nat, h.num_cols as nat),
        forall|r: int, c: int| 0 <= r < m.len() && 0 <= c < m.len() ==> #[trigger] m[r][c] == m[c][r],
        array_entries_at::<T>(
            lines.lines,
            lines.pos as int,
            m,
            array_positions(h.symmetry, h.num_rows as nat, h.num_cols as nat),
        ),
    ensures
        array_reads::<T>(array_start::<T>(lines, h), (h.num_cols + 1) as nat).0 == all_columns(
            m,
            h.num_cols as nat,
            0,
        ),
{
    assert forall|r: int, c: int| 0 <= r < c < m.len() implies #[trigger] m[r][c] == mirror_value(
        Mirror::Identity,
        m[c][r],
    ) by {
        assert(m[r][c] == m[c][r]);
    }
    law_array_reads::<T>(lines, h, m);
}

/// The mirror of an integer entry of a skew-symmetric matrix is its negation:
/// the two add up to zero (the least integer, which has no negation, is its
/// own mirror, as in two's complement).
pub proof fn law_integer_skew_mirror_negates(v: i64)
    ensures
        coordinate_mirror(Symmetry::SkewSymmetric) matches Some(m) && (v != i64::MIN
            ==> mirror_value(m, v) + v == 0),
        v != i64::MIN ==> mirror_value(symmetry_mirror(Symmetry::SkewSymmetric), v) + v == 0,
        v == i64::MIN ==> mirror_value(symmetry_mirror(Symmetry::SkewSymmetric), v) == v,
        <i64 as Field>::spec_zero() == 0,
{
}

/// The combinations of format, field and symmetry that the format allows,
/// listed: real and integer fields with every symmetry but hermitian, and
/// complex fields with every symmetry, in both formats; pattern fields only
/// in coordinate files, general or symmetric.
pub proof fn law_supported_combinations(f: MatrixFormat, k: FieldKind, s: Symmetry)
    ensures
        supported(f, k, s) <==> ((k == FieldKind::Real || k == FieldKind::Integer) && (s
            == Symmetry::General || s == Symmetry::Symmetric || s == Symmetry::SkewSymmetric))
            || k == FieldKind::Complex || (k == FieldKind::Pattern && f == MatrixFormat::Coordinate
            && (s == Symmetry::General || s == Symmetry::Symmetric)),
{
}

/// Whitespace is exactly the ASCII whitespace of `u8::is_ascii_whitespace`
/// (space, tab, line feed, form feed, carriage return): a text without those
/// bytes is a single token, and a text of those bytes holds no token.
pub proof fn law_whitespace_bytes(s: Seq<u8>)
    ensures
        s.len() > 0 && (forall|k: int|
            0 <= k < s.len() ==> #[trigger] s[k] != 0x20 && s[k] != 0x09 && s[k] != 0x0a && s[k]
                != 0x0c && s[k] != 0x0d) ==> tokens(s) == seq![s],
        (forall|k: int|
            0 <= k < s.len() ==> #[trigger] s[k] == 0x20 || s[k] == 0x09 || s[k] == 0x0a || s[k]
                == 0x0c || s[k] == 0x0d) ==> tokens(s) == Seq::<Seq<u8>>::empty(),
    decreases s.len(),
{
    if s.len() > 0 && (forall|k: int|
        0 <= k < s.len() ==> #[trigger] s[k] != 0x20 && s[k] != 0x09 && s[k] != 0x0a && s[k] != 0x0c
            && s[k] != 0x0d) {
        lemma_tokens_single(s);
    }
    if s.len() > 0 && (forall|k: int|
        0 <= k < s.len() ==> #[trigger] s[k] == 0x20 || s[k] == 0x09 || s[k] == 0x0a || s[k] == 0x0c
            || s[k] == 0x0d) {
        let r = s.drop_first();
        assert forall|k: int| 0 <= k < r.len() implies #[trigger] r[k] == 0x20 || r[k] == 0x09 || r[k]
            == 0x0a || r[k] == 0x0c || r[k] == 0x0d by {
            assert(r[k] == s[k + 1]);
        }
        assert(s[0] == 0x20 || s[0] == 0x09 || s[0] == 0x0a || s[0] == 0x0c || s[0] == 0x0d);
        law_whitespace_bytes(r);
    }
}

} // verus!
