//! A simple parsing library for the matrix market (.mtx) file format.
//!
//! Matrices, sparse or dense, are stored in a human readable ASCII format.
//! The format supports comments, dense (array) and sparse (coordinate)
//! matrices, real, integer, complex and pattern fields, and the symmetric,
//! skew-symmetric and hermitian symmetries.
//!
//! The library works on text: a reader takes the lines of a file
//! ([`reader::TextLines`]) and a writer produces the bytes of a file.
use vstd::prelude::*;
use vstd::string::StringSliceAdditionalSpecFns;

pub mod text;
pub mod reader;
pub mod writer;
pub mod properties;

use crate::text::{IntErrorKind, views};

verus! {

/// A enum of all the various errors this library can produce
#[derive(Clone, Copy, Debug, PartialEq, Eq)]
pub enum Error {
    /// the header line of a .mtx file is absent
    NoHeader,
    /// the header line of a .mtx file is incorrectly formated
    ///
    /// The correct format of the header line is:
    /// `%%MatrixMarket object format [qualifier ...]`
    MalformedHeader,
    /// the header line of the actual content is incorrectly formated
    ///
    /// for example the content header of a dense array must be `num_rows num_cols`
    MalformerContentHeader,
    /// additional values were expected from the reader but none were found
    InsufficientContent,
    /// the content of an mtx file itself is illegal
    ///
    /// ie. a 4x4 spare array which has a value at (100, 100)
    MalformedContent,
    /// the set of options in the header line is not supported
    UnsupportedHeaderOptions,
    /// something has gone wrong but it isn't clear what exactly
    ///
    /// this is likely the result of some previous error having downstream consequences
    GenericError,
    /// the matrix was expected to be square but wasn't
    ///
    /// mostly from trying to apply a symmetry to a non-square matrix
    NotSquare,
    /// an error occurred when trying to parse a float
    FloatError,
    /// an error occurred when trying to parse a integer
    IntError(IntErrorKind),
    /// a line of the input could not be read
    IoError,
}

/// the description of an integer error, as std's `ParseIntError` gives it
pub open spec fn int_error_text(k: IntErrorKind) -> Seq<u8> {
    match k {
        IntErrorKind::Empty => "cannot parse integer from empty string".spec_bytes(),
        IntErrorKind::InvalidDigit => "invalid digit found in string".spec_bytes(),
        IntErrorKind::PosOverflow => "number too large to fit in target type".spec_bytes(),
        IntErrorKind::NegOverflow => "number too small to fit in target type".spec_bytes(),
    }
}

/// the message of an error
pub open spec fn error_text(e: Error) -> Seq<u8> {
    match e {
        Error::NoHeader => "MTX Error: No Header".spec_bytes(),
        Error::MalformedHeader => "MTX Error: Malformed Header".spec_bytes(),
        Error::MalformerContentHeader => "MTX Error: Malformed Content Header".spec_bytes(),
        Error::InsufficientContent => "MTX Error: Insufficient Content".spec_bytes(),
        Error::MalformedContent => "MTX Error: Malformed Content".spec_bytes(),
        Error::UnsupportedHeaderOptions => "MTX Error: Unsupported Header Options".spec_bytes(),
        Error::GenericError => "MTX Error: Generic Error".spec_bytes(),
        Error::NotSquare => "MTX Error: Not Square".spec_bytes(),
        Error::FloatError => "MTX Error: Float Error (invalid float literal)".spec_bytes(),
        Error::IntError(k) => "MTX Error: Integer Error (".spec_bytes() + int_error_text(k)
            + ")".spec_bytes(),
        Error::IoError => "MTX Error: IO Error".spec_bytes(),
    }
}

fn push_str(out: &mut Vec<u8>, s: &str)
    ensures
        final(out)@ == old(out)@ + s.spec_bytes(),
{
    let b = s.as_bytes();
    let mut i: usize = 0;
    while i < b.len()
        invariant
            0 <= i <= b.len(),
            b@ == s.spec_bytes(),
            out@ =~= old(out)@ + b@.take(i as int),
        decreases b.len() - i,
    {
        out.push(b[i]);
        i = i + 1;
    }
    assert(b@.take(i as int) =~= b@);
}

impl Error {
    /// the message of this error, as text
    pub fn message(&self) -> (r: Vec<u8>)
        ensures
            r@ == error_text(*self),
    {
        let mut out: Vec<u8> = Vec::new();
        match self {
            Error::NoHeader => push_str(&mut out, "MTX Error: No Header"),
            Error::MalformedHeader => push_str(&mut out, "MTX Error: Malformed Header"),
            Error::MalformerContentHeader => push_str(&mut out, "MTX Error: Malformed Content Header"),
            Error::InsufficientContent => push_str(&mut out, "MTX Error: Insufficient Content"),
            Error::MalformedContent => push_str(&mut out, "MTX Error: Malformed Content"),
            Error::UnsupportedHeaderOptions => push_str(
                &mut out,
                "MTX Error: Unsupported Header Options",
            ),
            Error::GenericError => push_str(&mut out, "MTX Error: Generic Error"),
            Error::NotSquare => push_str(&mut out, "MTX Error: Not Square"),
            Error::FloatError => push_str(&mut out, "MTX Error: Float Error (invalid float literal)"),
            Error::IntError(k) => {
                push_str(&mut out, "MTX Error: Integer Error (");
                match k {
                    IntErrorKind::Empty => push_str(&mut out, "cannot parse integer from empty string"),
                    IntErrorKind::InvalidDigit => push_str(&mut out, "invalid digit found in string"),
                    IntErrorKind::PosOverflow => push_str(
                        &mut out,
                        "number too large to fit in target type",
                    ),
                    IntErrorKind::NegOverflow => push_str(
                        &mut out,
                        "number too small to fit in target type",
                    ),
                }
                push_str(&mut out, ")");
            },
            Error::IoError => push_str(&mut out, "MTX Error: IO Error"),
        }
        out
    }
}

/// a struct describing the pattern field in the mtx format
///
/// represents the field in a matrix where each value is simply zero or non-zero
#[derive(Clone, Copy, Debug, PartialEq, Eq, Structural)]
pub struct Pattern {
    pub is_non_zero: bool,
}

/// a value of one of the fields supported by the mtx format
///
/// The real and complex numbers are of the types `R` and `C`, which read and
/// write them as [`Field`]s.
#[derive(Clone, Copy, Debug)]
pub enum FieldVal<R, C> {
    /// real numbers (aka `R`)
    Real(R),
    /// integer numbers (aka `Z`)
    Integer(i64),
    /// complex numbers (aka `C`)
    Complex(C),
    /// A field which is either zero or non-zero
    Pattern(Pattern),
}

/// an enum of all the different *kinds* of fields supported by the mtx format
#[derive(Clone, Copy, Debug, PartialEq, Eq, Structural)]
pub enum FieldKind {
    /// real numbers (aka `R`)
    Real,
    /// integer numbers (aka `Z`)
    Integer,
    /// complex numbers (aka `C`)
    Complex,
    /// A field which is either zero or non-zero
    Pattern,
}

/// the name of a field kind in the header line
pub open spec fn kind_name(k: FieldKind) -> Seq<u8> {
    match k {
        // real
        FieldKind::Real => seq![0x72u8, 0x65u8, 0x61u8, 0x6cu8],
        // integer
        FieldKind::Integer => seq![0x69u8, 0x6eu8, 0x74u8, 0x65u8, 0x67u8, 0x65u8, 0x72u8],
        // complex
        FieldKind::Complex => seq![0x63u8, 0x6fu8, 0x6du8, 0x70u8, 0x6cu8, 0x65u8, 0x78u8],
        // pattern
        FieldKind::Pattern => seq![0x70u8, 0x61u8, 0x74u8, 0x74u8, 0x65u8, 0x72u8, 0x6eu8],
    }
}

impl FieldKind {
    /// represents this field kind as it would appear in the header line
    pub fn as_string(&self) -> (s: &'static str)
        ensures
            s.spec_bytes() == kind_name(*self),
    {
        match self {
            FieldKind::Real => {
                let s = "real";
                proof {
                    reveal_strlit("real");
                    vstd::string::is_ascii_spec_bytes(s);
                }
                assert(s.spec_bytes() =~= kind_name(*self));
                s
            },
            FieldKind::Integer => {
                let s = "integer";
                proof {
                    reveal_strlit("integer");
                    vstd::string::is_ascii_spec_bytes(s);
                }
                assert(s.spec_bytes() =~= kind_name(*self));
                s
            },
            FieldKind::Complex => {
                let s = "complex";
                proof {
                    reveal_strlit("complex");
                    vstd::string::is_ascii_spec_bytes(s);
                }
                assert(s.spec_bytes() =~= kind_name(*self));
                s
            },
            FieldKind::Pattern => {
                let s = "pattern";
                proof {
                    reveal_strlit("pattern");
                    vstd::string::is_ascii_spec_bytes(s);
                }
                assert(s.spec_bytes() =~= kind_name(*self));
                s
            },
        }
    }
}

/// represents the kinds of symmetries a matrix can have (or not have)
#[derive(Clone, Copy, Debug, PartialEq, Eq, Structural)]
pub enum Symmetry {
    /// no symmetry
    General,
    /// symmetrical across its diagonal (ie. `m = transpose(m)`)
    Symmetric,
    /// a skew-symmetric matrix (ie. `m = -transpose(m)`)
    SkewSymmetric,
    /// a hermitian / self-adjoint matrix (ie. `m = conjugate(transpose(m))`)
    Hermitian,
}

/// the name of a symmetry in the header line
pub open spec fn symmetry_name(s: Symmetry) -> Seq<u8> {
    match s {
        // general
        Symmetry::General => seq![0x67u8, 0x65u8, 0x6eu8, 0x65u8, 0x72u8, 0x61u8, 0x6cu8],
        // symmetric
        Symmetry::Symmetric => seq![
            0x73u8,
            0x79u8,
            0x6du8,
            0x6du8,
            0x65u8,
            0x74u8,
            0x72u8,
            0x69u8,
            0x63u8,
        ],
        // skew-symmetric
        Symmetry::SkewSymmetric => seq![
            0x73u8,
            0x6bu8,
            0x65u8,
            0x77u8,
            0x2du8,
            0x73u8,
            0x79u8,
            0x6du8,
            0x6du8,
            0x65u8,
            0x74u8,
            0x72u8,
            0x69u8,
            0x63u8,
        ],
        // hermitian
        Symmetry::Hermitian => seq![
            0x68u8,
            0x65u8,
            0x72u8,
            0x6du8,
            0x69u8,
            0x74u8,
            0x69u8,
            0x61u8,
            0x6eu8,
        ],
    }
}

impl Symmetry {
    /// represents this symmetry as it would appear in the header line
    pub fn as_string(&self) -> (s: &'static str)
        ensures
            s.spec_bytes() == symmetry_name(*self),
    {
        match self {
            Symmetry::General => {
                let s = "general";
                proof {
                    reveal_strlit("general");
                    vstd::string::is_ascii_spec_bytes(s);
                }
                assert(s.spec_bytes() =~= symmetry_name(*self));
                s
            },
            Symmetry::Symmetric => {
                let s = "symmetric";
                proof {
                    reveal_strlit("symmetric");
                    vstd::string::is_ascii_spec_bytes(s);
                }
                assert(s.spec_bytes() =~= symmetry_name(*self));
                s
            },
            Symmetry::SkewSymmetric => {
                let s = "skew-symmetric";
                proof {
                    reveal_strlit("skew-symmetric");
                    vstd::string::is_ascii_spec_bytes(s);
                }
                assert(s.spec_bytes() =~= symmetry_name(*self));
                s
            },
            Symmetry::Hermitian => {
                let s = "hermitian";
                proof {
                    reveal_strlit("hermitian");
                    vstd::string::is_ascii_spec_bytes(s);
                }
                assert(s.spec_bytes() =~= symmetry_name(*self));
                s
            },
        }
    }
}

/// a position in a matrix
#[derive(Clone, Copy, Debug, PartialEq, Eq, Structural)]
pub struct Position {
    pub row: usize,
    pub col: usize,
}

/// the size of a matrix
#[derive(Clone, Copy, Debug, PartialEq, Eq, Structural)]
pub struct MatrixSize {
    pub num_rows: usize,
    pub num_cols: usize,
}

/// a trait of all methods expected of fields by the mtx format
///
/// not all methods are expected to be called by all types (ex. `int.conjugate()`)
/// but are still implemented as reasonably as possible
pub trait Field: Sized + Copy {
    // The spec functions below describe what the methods give. The impls in
    // this crate define them. An impl written outside verified code cannot
    // define spec functions and keeps these defaults, each one fixed value for
    // the type; for such an impl the methods' contracts claim that the methods
    // give that one value, which does not hold and which nothing checks.
    /// the value that `read` gives for the tokens of a line
    open spec fn spec_read(tokens: Seq<Seq<u8>>) -> Result<Self, Error> {
        vstd::pervasive::arbitrary()
    }

    /// the text that `write` gives
    open spec fn spec_write(v: Self) -> Seq<u8> {
        vstd::pervasive::arbitrary()
    }

    /// the value that `inverse` gives
    open spec fn spec_inverse(v: Self) -> Self {
        vstd::pervasive::arbitrary()
    }

    /// the value that `conjugate` gives
    open spec fn spec_conjugate(v: Self) -> Self {
        vstd::pervasive::arbitrary()
    }

    /// the value that `zero` gives
    open spec fn spec_zero() -> Self {
        vstd::pervasive::arbitrary()
    }

    /// the kind that `kind` gives
    open spec fn spec_kind() -> FieldKind {
        vstd::pervasive::arbitrary()
    }

    /// read an representation of the field from the (whitespace separated) tokens of a line
    fn read(tokens: &[Vec<u8>]) -> (r: Result<Self, Error>)
        ensures
            r == Self::spec_read(views(tokens@)),
    ;

    /// the text representation of this field
    fn write(&self) -> (r: Vec<u8>)
        ensures
            r@ == Self::spec_write(*self),
    ;

    /// inverses this field (ie. `x = -x`)
    fn inverse(&self) -> (r: Self)
        ensures
            r == Self::spec_inverse(*self),
    ;

    /// conjugates this field (ie. `1 + 2i => 1 - 2i` )
    fn conjugate(&self) -> (r: Self)
        ensures
            r == Self::spec_conjugate(*self),
    ;

    /// gets the 0 for this field
    fn zero() -> (r: Self)
        ensures
            r == Self::spec_zero(),
    ;

    /// gets the corresponding [`FieldKind`] for this field
    fn kind() -> (r: FieldKind)
        ensures
            r == Self::spec_kind(),
    ;
}

/// the negation of an `i64` (the minimum is its own negation, as in two's complement)
pub open spec fn i64_neg(v: i64) -> i64 {
    if v == i64::MIN {
        v
    } else {
        (-v) as i64
    }
}

/// what reading an integer field gives: the first token in decimal
pub open spec fn i64_read(tokens: Seq<Seq<u8>>) -> Result<i64, Error> {
    if tokens.len() == 0 {
        Err(Error::InsufficientContent)
    } else {
        match text::parse_i64_spec(tokens[0]) {
            Ok(v) => Ok(v),
            Err(k) => Err(Error::IntError(k)),
        }
    }
}

impl Field for i64 {
    open spec fn spec_read(tokens: Seq<Seq<u8>>) -> Result<i64, Error> {
        i64_read(tokens)
    }

    open spec fn spec_write(v: i64) -> Seq<u8> {
        text::i64_text(v)
    }

    open spec fn spec_inverse(v: i64) -> i64 {
        i64_neg(v)
    }

    open spec fn spec_conjugate(v: i64) -> i64 {
        v
    }

    open spec fn spec_zero() -> i64 {
        0
    }

    open spec fn spec_kind() -> FieldKind {
        FieldKind::Integer
    }

    fn read(tokens: &[Vec<u8>]) -> (r: Result<i64, Error>) {
        if tokens.len() == 0 {
            return Err(Error::InsufficientContent);
        }
        match text::parse_i64(tokens[0].as_slice()) {
            Ok(v) => Ok(v),
            Err(k) => Err(Error::IntError(k)),
        }
    }

    fn write(&self) -> (r: Vec<u8>) {
        let mut out: Vec<u8> = Vec::new();
        text::push_i64(&mut out, *self);
        out
    }

    fn inverse(&self) -> (r: i64)
        ensures
            *self != i64::MIN ==> r + *self == 0,
            *self == i64::MIN ==> r == *self,
    {
        if *self == i64::MIN {
            *self
        } else {
            -*self
        }
    }

    fn conjugate(&self) -> (r: i64) {
        *self
    }

    fn zero() -> (r: i64) {
        0
    }

    fn kind() -> (r: FieldKind) {
        FieldKind::Integer
    }
}

impl Field for Pattern {
    open spec fn spec_read(tokens: Seq<Seq<u8>>) -> Result<Pattern, Error> {
        Ok(Pattern { is_non_zero: true })
    }

    open spec fn spec_write(v: Pattern) -> Seq<u8> {
        Seq::empty()
    }

    open spec fn spec_inverse(v: Pattern) -> Pattern {
        v
    }

    open spec fn spec_conjugate(v: Pattern) -> Pattern {
        v
    }

    open spec fn spec_zero() -> Pattern {
        Pattern { is_non_zero: false }
    }

    open spec fn spec_kind() -> FieldKind {
        FieldKind::Pattern
    }

    // note: in the .mtx file, pattern have no representation since they are only
    // used in coordinate where they just say that that coord is nonzero
    fn read(tokens: &[Vec<u8>]) -> (r: Result<Pattern, Error>) {
        Ok(Pattern { is_non_zero: true })
    }

    fn write(&self) -> (r: Vec<u8>) {
        Vec::new()
    }

    // -(non-zero) != 0, -(0) == 0
    fn inverse(&self) -> (r: Pattern) {
        *self
    }

    fn conjugate(&self) -> (r: Pattern) {
        *self
    }

    fn zero() -> (r: Pattern) {
        Pattern { is_non_zero: false }
    }

    fn kind() -> (r: FieldKind) {
        FieldKind::Pattern
    }
}

} // verus!
