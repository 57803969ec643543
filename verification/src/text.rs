//! Byte-level text handling for the ASCII matrix market format: whitespace
//! tokens, ASCII case folding, line splitting, and decimal integers.
use vstd::prelude::*;

verus! {

/// The kinds of failure when reading a decimal integer, as std's `IntErrorKind`.
#[derive(Clone, Copy, Debug, PartialEq, Eq, Structural)]
pub enum IntErrorKind {
    /// the text is empty
    Empty,
    /// the text holds a character that is not a digit (or only a sign)
    InvalidDigit,
    /// the value is larger than the type's maximum
    PosOverflow,
    /// the value is smaller than the type's minimum
    NegOverflow,
}

// ---------------------------------------------------------------------------
// characters
// ---------------------------------------------------------------------------
/// ASCII whitespace as `u8::is_ascii_whitespace` defines it
pub open spec fn is_ascii_ws(b: u8) -> bool {
    b == 0x20 || b == 0x09 || b == 0x0a || b == 0x0c || b == 0x0d
}

pub open spec fn is_digit(b: u8) -> bool {
    0x30 <= b <= 0x39
}

/// `u8::to_ascii_lowercase`
pub open spec fn lower_byte(b: u8) -> u8 {
    if 0x41 <= b <= 0x5a {
        (b + 0x20) as u8
    } else {
        b
    }
}

/// `to_ascii_lowercase` on a whole text
pub open spec fn lowercase(s: Seq<u8>) -> Seq<u8> {
    s.map_values(|b: u8| lower_byte(b))
}

pub fn is_ascii_whitespace(b: u8) -> (r: bool)
    ensures
        r == is_ascii_ws(b),
{
    b == 0x20 || b == 0x09 || b == 0x0a || b == 0x0c || b == 0x0d
}

/// the text with each ASCII upper-case letter replaced by its lower-case letter
pub fn to_ascii_lowercase(s: &[u8]) -> (r: Vec<u8>)
    ensures
        r@ == lowercase(s@),
{
    let mut out: Vec<u8> = Vec::new();
    let mut i: usize = 0;
    while i < s.len()
        invariant
            0 <= i <= s.len(),
            out@ =~= lowercase(s@).take(i as int),
        decreases s.len() - i,
    {
        let b = s[i];
        let l = if 0x41 <= b && b <= 0x5a {
            b + 0x20
        } else {
            b
        };
        out.push(l);
        i = i + 1;
    }
    out
}

// ---------------------------------------------------------------------------
// tokens (`split_ascii_whitespace`)
// ---------------------------------------------------------------------------
/// the length of the leading run of non-whitespace bytes
pub open spec fn run_len(s: Seq<u8>) -> nat
    decreases s.len(),
{
    if s.len() == 0 || is_ascii_ws(s[0]) {
        0
    } else {
        1 + run_len(s.drop_first())
    }
}

pub proof fn lemma_run_len_bound(s: Seq<u8>)
    ensures
        run_len(s) <= s.len(),
        s.len() > 0 && !is_ascii_ws(s[0]) ==> run_len(s) >= 1,
    decreases s.len(),
{
    if s.len() > 0 && !is_ascii_ws(s[0]) {
        lemma_run_len_bound(s.drop_first());
    }
}

/// the maximal runs of non-whitespace bytes, in order (`split_ascii_whitespace`)
pub open spec fn tokens(s: Seq<u8>) -> Seq<Seq<u8>>
    decreases s.len(),
{
    if s.len() == 0 {
        seq![]
    } else if is_ascii_ws(s[0]) {
        tokens(s.drop_first())
    } else {
        proof {
            lemma_run_len_bound(s);
        }
        seq![s.take(run_len(s) as int)] + tokens(s.skip(run_len(s) as int))
    }
}

/// the views of a sequence of byte vectors
pub open spec fn views(v: Seq<Vec<u8>>) -> Seq<Seq<u8>> {
    v.map_values(|x: Vec<u8>| x@)
}

pub proof fn lemma_run_len_exact(s: Seq<u8>, j: int)
    requires
        0 <= j <= s.len(),
        forall|k: int| 0 <= k < j ==> !is_ascii_ws(#[trigger] s[k]),
        j == s.len() || is_ascii_ws(s[j]),
    ensures
        run_len(s) == j,
    decreases j,
{
    if j > 0 {
        assert(!is_ascii_ws(s[0]));
        assert forall|k: int| 0 <= k < j - 1 implies !is_ascii_ws(#[trigger] s.drop_first()[k]) by {
            assert(s.drop_first()[k] == s[k + 1]);
        }
        lemma_run_len_exact(s.drop_first(), j - 1);
    }
}

/// The whitespace-separated tokens of a text, as `split_ascii_whitespace` gives them.
pub fn split_tokens(s: &[u8]) -> (r: Vec<Vec<u8>>)
    ensures
        views(r@) == tokens(s@),
{
    let mut out: Vec<Vec<u8>> = Vec::new();
    let mut i: usize = 0;
    assert(s@.skip(0) =~= s@);
    while i < s.len()
        invariant
            0 <= i <= s.len(),
            views(out@) + tokens(s@.skip(i as int)) == tokens(s@),
        decreases s.len() - i,
    {
        let ghost rest = s@.skip(i as int);
        if is_ascii_whitespace(s[i]) {
            assert(rest.drop_first() =~= s@.skip(i + 1));
            i = i + 1;
        } else {
            let mut tok: Vec<u8> = Vec::new();
            let mut j: usize = i;
            while j < s.len() && !is_ascii_whitespace(s[j])
                invariant
                    i <= j <= s.len(),
                    tok@ =~= s@.subrange(i as int, j as int),
                    forall|k: int| i <= k < j ==> !is_ascii_ws(#[trigger] s@[k]),
                decreases s.len() - j,
            {
                tok.push(s[j]);
                j = j + 1;
            }
            proof {
                assert forall|k: int| 0 <= k < j - i implies !is_ascii_ws(#[trigger] rest[k]) by {
                    assert(rest[k] == s@[i + k]);
                }
                if j < s.len() {
                    assert(rest[j - i] == s@[j as int]);
                }
                lemma_run_len_exact(rest, j - i);
                assert(rest.take(j - i) =~= tok@);
                assert(rest.skip(j - i) =~= s@.skip(j as int));
                assert(views(out@.push(tok)) =~= views(out@).push(tok@));
                assert(views(out@) + tokens(rest) =~= views(out@).push(tok@) + tokens(
                    s@.skip(j as int),
                ));
            }
            out.push(tok);
            i = j;
        }
    }
    assert(s@.skip(i as int) =~= Seq::<u8>::empty());
    assert(views(out@) + tokens(s@.skip(i as int)) =~= views(out@));
    out
}

/// A text without whitespace that is not empty is a single token.
pub proof fn lemma_tokens_single(s: Seq<u8>)
    requires
        s.len() > 0,
        forall|k: int| 0 <= k < s.len() ==> !is_ascii_ws(#[trigger] s[k]),
    ensures
        tokens(s) == seq![s],
{
    lemma_run_len_exact(s, s.len() as int);
    assert(s.take(s.len() as int) =~= s);
    assert(s.skip(s.len() as int) =~= Seq::<u8>::empty());
    assert(tokens(s.skip(s.len() as int)) =~= Seq::<Seq<u8>>::empty());
    assert(tokens(s) =~= seq![s]);
}

/// A token followed by a space and more text splits off as the first token.
pub proof fn lemma_tokens_cons(a: Seq<u8>, b: Seq<u8>)
    requires
        a.len() > 0,
        forall|k: int| 0 <= k < a.len() ==> !is_ascii_ws(#[trigger] a[k]),
    ensures
        tokens(a + seq![0x20u8] + b) == seq![a] + tokens(b),
{
    let s = a + seq![0x20u8] + b;
    assert forall|k: int| 0 <= k < a.len() implies !is_ascii_ws(#[trigger] s[k]) by {
        assert(s[k] == a[k]);
    }
    assert(s[a.len() as int] == 0x20u8);
    lemma_run_len_exact(s, a.len() as int);
    assert(s.take(a.len() as int) =~= a);
    let r = s.skip(a.len() as int);
    assert(r.len() > 0 && r[0] == 0x20u8);
    assert(r.drop_first() =~= b);
    assert(tokens(r) == tokens(b));
    assert(!is_ascii_ws(s[0]));
    assert(run_len(s) == a.len());
    assert(tokens(s) == seq![s.take(run_len(s) as int)] + tokens(s.skip(run_len(s) as int)));
}

// ---------------------------------------------------------------------------
// lines (`BufRead::lines`)
// ---------------------------------------------------------------------------
/// the length of the text up to its first line feed (or the whole text)
pub open spec fn line_len(s: Seq<u8>) -> nat
    decreases s.len(),
{
    if s.len() == 0 || s[0] == 0x0a {
        0
    } else {
        1 + line_len(s.drop_first())
    }
}

pub proof fn lemma_line_len_bound(s: Seq<u8>)
    ensures
        line_len(s) <= s.len(),
        line_len(s) < s.len() ==> s[line_len(s) as int] == 0x0a,
        forall|k: int| 0 <= k < line_len(s) ==> s[k] != 0x0a,
    decreases s.len(),
{
    if s.len() > 0 && s[0] != 0x0a {
        lemma_line_len_bound(s.drop_first());
        assert forall|k: int| 0 <= k < line_len(s) implies s[k] != 0x0a by {
            if k > 0 {
                assert(s[k] == s.drop_first()[k - 1]);
            }
        }
    }
}

/// a line without its line feed: one carriage return right before the line
/// feed is dropped too
pub open spec fn strip_cr(line: Seq<u8>) -> Seq<u8> {
    if line.len() > 0 && line.last() == 0x0d {
        line.drop_last()
    } else {
        line
    }
}

/// The lines of a text as `BufRead::lines` gives them: split at each line feed,
/// a carriage return before a line feed dropped, no line after a final line feed.
pub open spec fn text_lines(s: Seq<u8>) -> Seq<Seq<u8>>
    decreases s.len(),
{
    if s.len() == 0 {
        seq![]
    } else {
        proof {
            lemma_line_len_bound(s);
        }
        let n = line_len(s) as int;
        if n == s.len() {
            seq![s]
        } else {
            seq![strip_cr(s.take(n))] + text_lines(s.skip(n + 1))
        }
    }
}

pub proof fn lemma_line_len_exact(s: Seq<u8>, j: int)
    requires
        0 <= j <= s.len(),
        forall|k: int| 0 <= k < j ==> #[trigger] s[k] != 0x0a,
        j == s.len() || s[j] == 0x0a,
    ensures
        line_len(s) == j,
    decreases j,
{
    if j > 0 {
        assert forall|k: int| 0 <= k < j - 1 implies #[trigger] s.drop_first()[k] != 0x0a by {
            assert(s.drop_first()[k] == s[k + 1]);
        }
        lemma_line_len_exact(s.drop_first(), j - 1);
    }
}

/// The lines of a text, as `BufRead::lines` gives them.
pub fn split_lines(s: &[u8]) -> (r: Vec<Vec<u8>>)
    ensures
        views(r@) == text_lines(s@),
{
    let mut out: Vec<Vec<u8>> = Vec::new();
    let mut i: usize = 0;
    assert(s@.skip(0) =~= s@);
    while i < s.len()
        invariant
            0 <= i <= s.len(),
            views(out@) + text_lines(s@.skip(i as int)) == text_lines(s@),
        decreases s.len() - i,
    {
        let ghost rest = s@.skip(i as int);
        let mut line: Vec<u8> = Vec::new();
        let mut j: usize = i;
        while j < s.len() && s[j] != 0x0a
            invariant
                i <= j <= s.len(),
                line@ =~= s@.subrange(i as int, j as int),
                forall|k: int| i <= k < j ==> #[trigger] s@[k] != 0x0a,
            decreases s.len() - j,
        {
            line.push(s[j]);
            j = j + 1;
        }
        proof {
            assert forall|k: int| 0 <= k < j - i implies #[trigger] rest[k] != 0x0a by {
                assert(rest[k] == s@[i + k]);
            }
            if j < s.len() {
                assert(rest[j - i] == s@[j as int]);
            }
            lemma_line_len_exact(rest, j - i);
            assert(rest.take(j - i) =~= line@);
        }
        if j == s.len() {
            proof {
                assert(rest =~= line@);
                assert(views(out@.push(line)) =~= views(out@).push(line@));
                assert(views(out@) + text_lines(rest) =~= views(out@).push(line@));
                assert(s@.skip(j as int) =~= Seq::<u8>::empty());
            }
            out.push(line);
            i = j;
        } else {
            let ghost before = line@;
            if line.len() > 0 && line[line.len() - 1] == 0x0d {
                line.pop();
            }
            proof {
                assert(line@ =~= strip_cr(before));
                assert(rest.skip(j - i + 1) =~= s@.skip(j + 1));
                assert(views(out@.push(line)) =~= views(out@).push(line@));
                assert(views(out@) + text_lines(rest) =~= views(out@).push(line@) + text_lines(
                    s@.skip(j + 1),
                ));
            }
            out.push(line);
            i = j + 1;
        }
    }
    assert(s@.skip(i as int) =~= Seq::<u8>::empty());
    assert(views(out@) + text_lines(s@.skip(i as int)) =~= views(out@));
    out
}

/// a line holds no line feed
pub open spec fn no_line_feed(l: Seq<u8>) -> bool {
    forall|k: int| 0 <= k < l.len() ==> #[trigger] l[k] != 0x0a
}

/// The lines of a text hold no line feed.
pub proof fn lemma_text_lines_no_lf(s: Seq<u8>)
    ensures
        forall|i: int| 0 <= i < text_lines(s).len() ==> no_line_feed(#[trigger] text_lines(s)[i]),
    decreases s.len(),
{
    if s.len() > 0 {
        lemma_line_len_bound(s);
        let n = line_len(s) as int;
        if n < s.len() {
            lemma_text_lines_no_lf(s.skip(n + 1));
            let first = strip_cr(s.take(n));
            assert forall|k: int| 0 <= k < first.len() implies #[trigger] first[k] != 0x0a by {
                assert(first[k] == s[k]);
            }
            assert forall|i: int| 0 <= i < text_lines(s).len() implies no_line_feed(
                #[trigger] text_lines(s)[i],
            ) by {
                if i > 0 {
                    assert(text_lines(s)[i] == text_lines(s.skip(n + 1))[i - 1]);
                }
            }
        }
    }
}


// ---------------------------------------------------------------------------
// decimal integers
// ---------------------------------------------------------------------------
pub open spec fn digit_value(b: u8) -> nat {
    (b - 0x30) as nat
}

/// Reading digits from left to right as std's `from_str` does: at each
/// character, a non-digit is `InvalidDigit`, else a value beyond `max` is an
/// overflow.
pub open spec fn scan_digits(d: Seq<u8>, max: nat) -> Result<nat, IntErrorKind>
    decreases d.len(),
{
    if d.len() == 0 {
        Ok(0)
    } else {
        match scan_digits(d.drop_last(), max) {
            Err(k) => Err(k),
            Ok(v) => if !is_digit(d.last()) {
                Err(IntErrorKind::InvalidDigit)
            } else if v * 10 + digit_value(d.last()) > max {
                Err(IntErrorKind::PosOverflow)
            } else {
                Ok(v * 10 + digit_value(d.last()))
            },
        }
    }
}

pub open spec fn is_sign(b: u8) -> bool {
    b == 0x2b || b == 0x2d
}

/// `usize::from_str`: an optional `+` then decimal digits
pub open spec fn parse_usize_spec(s: Seq<u8>) -> Result<usize, IntErrorKind> {
    if s.len() == 0 {
        Err(IntErrorKind::Empty)
    } else if s.len() == 1 && is_sign(s[0]) {
        Err(IntErrorKind::InvalidDigit)
    } else {
        let d = if s[0] == 0x2b {
            s.drop_first()
        } else {
            s
        };
        match scan_digits(d, usize::MAX as nat) {
            Ok(v) => Ok(v as usize),
            Err(k) => Err(k),
        }
    }
}

/// `i64::from_str`: an optional `+` or `-` then decimal digits
pub open spec fn parse_i64_spec(s: Seq<u8>) -> Result<i64, IntErrorKind> {
    if s.len() == 0 {
        Err(IntErrorKind::Empty)
    } else if s.len() == 1 && is_sign(s[0]) {
        Err(IntErrorKind::InvalidDigit)
    } else if s[0] == 0x2d {
        match scan_digits(s.drop_first(), 0x8000_0000_0000_0000) {
            Ok(v) => Ok((-v) as i64),
            Err(IntErrorKind::PosOverflow) => Err(IntErrorKind::NegOverflow),
            Err(k) => Err(k),
        }
    } else {
        let d = if s[0] == 0x2b {
            s.drop_first()
        } else {
            s
        };
        match scan_digits(d, i64::MAX as nat) {
            Ok(v) => Ok(v as i64),
            Err(k) => Err(k),
        }
    }
}

proof fn lemma_scan_bound(d: Seq<u8>, max: nat)
    ensures
        scan_digits(d, max) matches Ok(v) ==> v <= max,
    decreases d.len(),
{
    if d.len() > 0 {
        lemma_scan_bound(d.drop_last(), max);
    }
}

/// An error met on a prefix is the error of the whole text.
proof fn lemma_scan_prefix_err(d: Seq<u8>, n: int, max: nat)
    requires
        0 <= n <= d.len(),
        scan_digits(d.take(n), max) is Err,
    ensures
        scan_digits(d, max) == scan_digits(d.take(n), max),
    decreases d.len() - n,
{
    if n < d.len() {
        assert(d.drop_last().take(n) =~= d.take(n));
        lemma_scan_prefix_err(d.drop_last(), n, max);
    } else {
        assert(d.take(n) =~= d);
    }
}

/// reads the decimal digits `s[start..]`; values above `max` overflow
fn scan_digits_exec(s: &[u8], start: usize, max: u64) -> (r: Result<u64, IntErrorKind>)
    requires
        start <= s.len(),
    ensures
        match r {
            Ok(v) => scan_digits(s@.skip(start as int), max as nat) == Ok::<nat, IntErrorKind>(
                v as nat,
            ),
            Err(k) => scan_digits(s@.skip(start as int), max as nat) == Err::<nat, IntErrorKind>(
                k,
            ),
        },
{
    let ghost d = s@.skip(start as int);
    let mut v: u64 = 0;
    let mut i: usize = start;
    assert(d.take(0) =~= Seq::<u8>::empty());
    while i < s.len()
        invariant
            start <= i <= s.len(),
            d == s@.skip(start as int),
            scan_digits(d.take(i - start), max as nat) == Ok::<nat, IntErrorKind>(v as nat),
        decreases s.len() - i,
    {
        let ghost pre = d.take(i - start + 1);
        assert(pre.drop_last() =~= d.take(i - start));
        assert(pre.last() == s@[i as int]);
        let c = s[i];
        if c < 0x30 || c > 0x39 {
            proof {
                lemma_scan_prefix_err(d, i - start + 1, max as nat);
            }
            return Err(IntErrorKind::InvalidDigit);
        }
        let next: u128 = (v as u128) * 10 + ((c - 0x30) as u128);
        if next > max as u128 {
            proof {
                lemma_scan_prefix_err(d, i - start + 1, max as nat);
            }
            return Err(IntErrorKind::PosOverflow);
        }
        v = next as u64;
        i = i + 1;
    }
    assert(d.take(i - start) =~= d);
    Ok(v)
}

/// Reads a `usize` in decimal, as `str::parse::<usize>` does.
pub fn parse_usize(s: &[u8]) -> (r: Result<usize, IntErrorKind>)
    ensures
        r == parse_usize_spec(s@),
{
    if s.len() == 0 {
        return Err(IntErrorKind::Empty);
    }
    if s.len() == 1 && (s[0] == 0x2b || s[0] == 0x2d) {
        return Err(IntErrorKind::InvalidDigit);
    }
    let start: usize = if s[0] == 0x2b {
        1
    } else {
        0
    };
    assert(s@.skip(1) =~= s@.drop_first());
    assert(s@.skip(0) =~= s@);
    proof {
        lemma_scan_bound(s@.skip(start as int), usize::MAX as nat);
    }
    match scan_digits_exec(s, start, usize::MAX as u64) {
        Ok(v) => Ok(v as usize),
        Err(k) => Err(k),
    }
}

/// Reads an `i64` in decimal, as `str::parse::<i64>` does.
pub fn parse_i64(s: &[u8]) -> (r: Result<i64, IntErrorKind>)
    ensures
        r == parse_i64_spec(s@),
{
    if s.len() == 0 {
        return Err(IntErrorKind::Empty);
    }
    if s.len() == 1 && (s[0] == 0x2b || s[0] == 0x2d) {
        return Err(IntErrorKind::InvalidDigit);
    }
    assert(s@.skip(1) =~= s@.drop_first());
    assert(s@.skip(0) =~= s@);
    if s[0] == 0x2d {
        proof {
            lemma_scan_bound(s@.skip(1), 0x8000_0000_0000_0000);
        }
        match scan_digits_exec(s, 1, 0x8000_0000_0000_0000) {
            Ok(v) => {
                if v == 0x8000_0000_0000_0000 {
                    Ok(i64::MIN)
                } else {
                    Ok(-(v as i64))
                }
            },
            Err(IntErrorKind::PosOverflow) => Err(IntErrorKind::NegOverflow),
            Err(k) => Err(k),
        }
    } else {
        let start: usize = if s[0] == 0x2b {
            1
        } else {
            0
        };
        proof {
            lemma_scan_bound(s@.skip(start as int), i64::MAX as nat);
        }
        match scan_digits_exec(s, start, i64::MAX as u64) {
            Ok(v) => Ok(v as i64),
            Err(k) => Err(k),
        }
    }
}

/// the decimal digits of a natural number, without leading zeros
pub open spec fn decimal(n: nat) -> Seq<u8>
    decreases n,
{
    if n < 10 {
        seq![(0x30 + n) as u8]
    } else {
        decimal(n / 10).push((0x30 + n % 10) as u8)
    }
}

/// an `i64` as `Display` writes it
pub open spec fn i64_text(v: i64) -> Seq<u8> {
    if v < 0 {
        seq![0x2du8] + decimal((-v) as nat)
    } else {
        decimal(v as nat)
    }
}

/// Appends the decimal digits of `n`.
pub fn push_decimal(out: &mut Vec<u8>, n: u128)
    ensures
        final(out)@ == old(out)@ + decimal(n as nat),
    decreases n,
{
    if n >= 10 {
        push_decimal(out, n / 10);
    }
    let d: u8 = (n % 10) as u8;
    out.push(0x30 + d);
    assert(final(out)@ =~= old(out)@ + decimal(n as nat));
}

/// Appends an `i64` as `Display` writes it.
pub fn push_i64(out: &mut Vec<u8>, v: i64)
    ensures
        final(out)@ == old(out)@ + i64_text(v),
{
    if v < 0 {
        out.push(0x2d);
        let m: u128 = (0 - (v as i128)) as u128;
        push_decimal(out, m);
        assert(final(out)@ =~= old(out)@ + i64_text(v));
    } else {
        push_decimal(out, v as u128);
    }
}

pub proof fn lemma_decimal_digits(n: nat)
    ensures
        decimal(n).len() > 0,
        forall|k: int| 0 <= k < decimal(n).len() ==> is_digit(#[trigger] decimal(n)[k]),
    decreases n,
{
    if n >= 10 {
        lemma_decimal_digits(n / 10);
        let p = decimal(n / 10);
        assert forall|k: int| 0 <= k < decimal(n).len() implies is_digit(#[trigger] decimal(n)[k]) by {
            if k < p.len() {
                assert(decimal(n)[k] == p[k]);
            }
        }
    }
}

/// Reading back the digits of `n` gives `n`.
pub proof fn lemma_scan_decimal(n: nat, max: nat)
    requires
        n <= max,
    ensures
        scan_digits(decimal(n), max) == Ok::<nat, IntErrorKind>(n),
    decreases n,
{
    let d = decimal(n);
    if n < 10 {
        assert(d.drop_last() =~= Seq::<u8>::empty());
        assert(scan_digits(d.drop_last(), max) == Ok::<nat, IntErrorKind>(0));
        assert(d.last() == (0x30 + n) as u8);
        assert(digit_value(d.last()) == n);
    } else {
        lemma_scan_decimal(n / 10, max);
        assert(d.drop_last() =~= decimal(n / 10));
        assert(d.last() == (0x30 + n % 10) as u8);
        assert(digit_value(d.last()) == n % 10);
        assert((n / 10) * 10 + n % 10 == n);
    }
}

/// Reading back the text of a `usize` gives it.
pub proof fn lemma_usize_roundtrip(n: usize)
    ensures
        parse_usize_spec(decimal(n as nat)) == Ok::<usize, IntErrorKind>(n),
        decimal(n as nat).len() > 0,
        forall|k: int| 0 <= k < decimal(n as nat).len() ==> !is_ascii_ws(#[trigger] decimal(n as nat)[k]),
{
    lemma_decimal_digits(n as nat);
    lemma_scan_decimal(n as nat, usize::MAX as nat);
    let d = decimal(n as nat);
    assert(is_digit(d[0]));
}

/// Reading back the text of an `i64` gives it.
pub proof fn lemma_i64_roundtrip(v: i64)
    ensures
        parse_i64_spec(i64_text(v)) == Ok::<i64, IntErrorKind>(v),
        i64_text(v).len() > 0,
        forall|k: int| 0 <= k < i64_text(v).len() ==> !is_ascii_ws(#[trigger] i64_text(v)[k]),
{
    let s = i64_text(v);
    if v < 0 {
        let m = (-v) as nat;
        lemma_decimal_digits(m);
        lemma_scan_decimal(m, 0x8000_0000_0000_0000);
        assert(s.drop_first() =~= decimal(m));
        assert forall|k: int| 0 <= k < s.len() implies !is_ascii_ws(#[trigger] s[k]) by {
            if k > 0 {
                assert(s[k] == decimal(m)[k - 1]);
            }
        }
        assert(decimal(m).len() >= 1);
    } else {
        lemma_decimal_digits(v as nat);
        lemma_scan_decimal(v as nat, i64::MAX as nat);
        assert(is_digit(s[0]));
    }
}

} // verus!
