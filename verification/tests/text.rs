use matrix_market::text::{
    parse_i64, parse_usize, push_decimal, push_i64, split_lines, split_tokens, to_ascii_lowercase, IntErrorKind,
};
use matrix_market::{Error, Field, FieldKind, Pattern};

#[test]
fn parse_usize_like_from_str() {
    assert_eq!(parse_usize(b"0"), Ok(0));
    assert_eq!(parse_usize(b"+42"), Ok(42));
    assert_eq!(parse_usize(b"007"), Ok(7));
    assert_eq!(parse_usize(b"18446744073709551615"), Ok(usize::MAX));
    assert_eq!(parse_usize(b"18446744073709551616"), Err(IntErrorKind::PosOverflow));
    assert_eq!(parse_usize(b""), Err(IntErrorKind::Empty));
    assert_eq!(parse_usize(b"+"), Err(IntErrorKind::InvalidDigit));
    assert_eq!(parse_usize(b"-1"), Err(IntErrorKind::InvalidDigit));
    assert_eq!(parse_usize(b"1a"), Err(IntErrorKind::InvalidDigit));
}

#[test]
fn parse_i64_like_from_str() {
    assert_eq!(parse_i64(b"-9223372036854775808"), Ok(i64::MIN));
    assert_eq!(parse_i64(b"9223372036854775807"), Ok(i64::MAX));
    assert_eq!(parse_i64(b"-0"), Ok(0));
    assert_eq!(parse_i64(b"+15"), Ok(15));
    assert_eq!(parse_i64(b"9223372036854775808"), Err(IntErrorKind::PosOverflow));
    assert_eq!(parse_i64(b"-9223372036854775809"), Err(IntErrorKind::NegOverflow));
    assert_eq!(parse_i64(b"-"), Err(IntErrorKind::InvalidDigit));
    assert_eq!(parse_i64(b"--1"), Err(IntErrorKind::InvalidDigit));
    assert_eq!(parse_i64(b""), Err(IntErrorKind::Empty));
    for s in ["-17", "0", "123456789", "-9223372036854775808"] {
        assert_eq!(parse_i64(s.as_bytes()), Ok(s.parse::<i64>().unwrap()));
    }
}

#[test]
fn decimal_text() {
    let mut out = Vec::new();
    push_decimal(&mut out, 0);
    out.push(b' ');
    push_decimal(&mut out, 1905);
    out.push(b' ');
    push_i64(&mut out, -42);
    out.push(b' ');
    push_i64(&mut out, i64::MIN);
    assert_eq!(String::from_utf8(out).unwrap(), "0 1905 -42 -9223372036854775808");
}

#[test]
fn tokens_split_at_ascii_whitespace() {
    let t = split_tokens(b"  1\t22 \x0c333\r\n");
    assert_eq!(t, vec![b"1".to_vec(), b"22".to_vec(), b"333".to_vec()]);
    assert!(split_tokens(b" \t ").is_empty());
}

#[test]
fn lines_split_like_bufread_lines() {
    assert_eq!(
        split_lines(b"a\r\nb\n\nc"),
        vec![b"a".to_vec(), b"b".to_vec(), b"".to_vec(), b"c".to_vec()]
    );
    assert_eq!(split_lines(b"x\n"), vec![b"x".to_vec()]);
    assert!(split_lines(b"").is_empty());
    assert_eq!(split_lines(b"x\r"), vec![b"x\r".to_vec()]);
}

#[test]
fn ascii_lowercase() {
    assert_eq!(to_ascii_lowercase(b"MaTrIx-Market 9"), b"matrix-market 9".to_vec());
}

#[test]
fn integer_field() {
    assert_eq!(<i64 as Field>::read(&[b"-12".to_vec(), b"junk".to_vec()]), Ok(-12));
    assert_eq!(<i64 as Field>::read(&[]), Err(Error::InsufficientContent));
    assert_eq!(<i64 as Field>::read(&[b"1.5".to_vec()]), Err(Error::IntError(IntErrorKind::InvalidDigit)));
    assert_eq!(7i64.write(), b"7".to_vec());
    assert_eq!((-7i64).inverse(), 7);
    assert_eq!(i64::MIN.inverse(), i64::MIN);
    assert_eq!(5i64.conjugate(), 5);
    assert_eq!(<i64 as Field>::zero(), 0);
    assert_eq!(<i64 as Field>::kind(), FieldKind::Integer);
}

#[test]
fn pattern_field() {
    let p = Pattern { is_non_zero: true };
    assert_eq!(<Pattern as Field>::read(&[]), Ok(p));
    assert!(p.write().is_empty());
    assert_eq!(p.inverse(), p);
    assert_eq!(p.conjugate(), p);
    assert_eq!(<Pattern as Field>::zero(), Pattern { is_non_zero: false });
    assert_eq!(<Pattern as Field>::kind(), FieldKind::Pattern);
}
