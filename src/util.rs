//! Decoding of the board coordinates and board sizes written in game records.
use vstd::prelude::*;
use vstd::string::StringSliceAdditionalSpecFns;

verus! {

/// The ways a value from a game record can fail to decode.
#[derive(Clone, Copy, PartialEq, Eq, Structural, Debug)]
pub enum ParseError {
    /// A point is not written as two coordinate letters.
    CoordinateParseError,
    /// A board size is not a number, or two numbers around a colon.
    BoardSizeParseError,
}

/// The coordinate a letter stands for: `a` to `z` give 0 to 25, `A` to `Z` give 26 to 51.
pub open spec fn coord_of(c: char) -> Option<usize> {
    if 'a' <= c <= 'z' {
        Some((c as u32 - 97) as usize)
    } else if 'A' <= c <= 'Z' {
        Some((c as u32 - 39) as usize)
    } else {
        None
    }
}

/// The point that the text `b` stands for: exactly two coordinate letters, column then row.
pub open spec fn coords_of(b: Seq<u8>) -> Option<(usize, usize)> {
    if b.len() != 2 {
        None
    } else {
        match (coord_of(b[0] as char), coord_of(b[1] as char)) {
            (Some(x), Some(y)) => Some((x, y)),
            _ => None,
        }
    }
}

/// Decode a point, as found in move and setup properties (`B[dc]`).
pub fn parse_coords(coord: &str) -> (r: Result<(usize, usize), ParseError>)
    ensures
        r == (match coords_of(coord.spec_bytes()) {
            Some(p) => Ok(p),
            None => Err(ParseError::CoordinateParseError),
        }),
{
    if coord.len() != 2 {
        return Err(ParseError::CoordinateParseError);
    }
    let bytes = coord.as_bytes();
    let x = match parse_coord(bytes[0] as char) {
        Ok(v) => v,
        Err(e) => return Err(e),
    };
    let y = match parse_coord(bytes[1] as char) {
        Ok(v) => v,
        Err(e) => return Err(e),
    };
    Ok((x, y))
}

/// Decode one coordinate letter.
fn parse_coord(c: char) -> (r: Result<usize, ParseError>)
    ensures
        r == (match coord_of(c) {
            Some(v) => Ok(v),
            None => Err(ParseError::CoordinateParseError),
        }),
{
    if !(('a' <= c && c <= 'z') || ('A' <= c && c <= 'Z')) {
        return Err(ParseError::CoordinateParseError);
    }
    let u = c as u32;
    if u >= 97 {
        return Ok((u - 97) as usize);
    }
    Ok((u - 39) as usize)
}

pub open spec fn is_digit(b: u8) -> bool {
    48 <= b <= 57
}

/// The value of a run of decimal digits.
pub open spec fn digits_value(b: Seq<u8>) -> nat
    decreases b.len(),
{
    if b.len() == 0 {
        0
    } else {
        digits_value(b.drop_last()) * 10 + (b.last() - 48) as nat
    }
}

pub open spec fn all_digits(d: Seq<u8>) -> bool {
    forall|i: int| 0 <= i < d.len() ==> is_digit(#[trigger] d[i])
}

/// The text after an optional leading `+`.
pub open spec fn unsigned_part(b: Seq<u8>) -> Seq<u8> {
    if b.len() > 0 && b[0] == 43 {
        b.drop_first()
    } else {
        b
    }
}

/// The number that `b` writes: an optional `+` then one or more decimal digits, whose value
/// fits a `usize`.
pub open spec fn number_of(b: Seq<u8>) -> Option<usize> {
    let d = unsigned_part(b);
    if d.len() > 0 && all_digits(d) && digits_value(d) <= usize::MAX {
        Some(digits_value(d) as usize)
    } else {
        None
    }
}

/// The text after a run of leading colons.
pub open spec fn skip_colons(b: Seq<u8>) -> Seq<u8>
    decreases b.len(),
{
    if b.len() > 0 && b[0] == 58 {
        skip_colons(b.drop_first())
    } else {
        b
    }
}

/// The board size that `b` writes: one number for a square board, or width and height
/// around the first colon (further colons before the height are skipped).
pub open spec fn board_size_of(b: Seq<u8>) -> Option<(usize, usize)> {
    if exists|i: int| 0 <= i < b.len() && b[i] == 58 {
        let i = choose|i: int| 0 <= i < b.len() && b[i] == 58 && forall|j: int| 0 <= j < i ==> b[j] != 58;
        match (number_of(b.subrange(0, i)), number_of(skip_colons(b.subrange(i, b.len() as int)))) {
            (Some(w), Some(h)) => Some((w, h)),
            _ => None,
        }
    } else {
        match number_of(b) {
            Some(w) => Some((w, w)),
            None => None,
        }
    }
}

/// Read the number written in `b[start..end]`.
fn parse_number(b: &[u8], start: usize, end: usize) -> (r: Option<usize>)
    requires
        start <= end <= b@.len(),
    ensures
        r == number_of(b@.subrange(start as int, end as int)),
{
    let ghost s = b@.subrange(start as int, end as int);
    let mut i = start;
    if i < end && b[i] == 43 {
        i = i + 1;
    }
    let ghost i0 = i as int;
    let ghost d = b@.subrange(i0, end as int);
    assert(d == unsigned_part(s));
    if i == end {
        return None;
    }
    let mut value: usize = 0;
    while i < end
        invariant
            start <= i0 <= i <= end <= b@.len(),
            d == b@.subrange(i0, end as int),
            d == unsigned_part(s),
            s == b@.subrange(start as int, end as int),
            forall|k: int| i0 <= k < i ==> is_digit(#[trigger] b@[k]),
            value == digits_value(b@.subrange(i0, i as int)),
        decreases end - i,
    {
        let c = b[i];
        if !(48 <= c && c <= 57) {
            assert(d[i - i0] == b@[i as int]);
            assert(!is_digit(d[i - i0]));
            assert(number_of(s) is None);
            return None;
        }
        let ghost prefix = b@.subrange(i0, i + 1);
        assert(prefix.drop_last() == b@.subrange(i0, i as int));
        assert(prefix == d.subrange(0, i + 1 - i0));
        let digit = (c - 48) as usize;
        if value > (usize::MAX - digit) / 10 {
            proof {
                assert(digits_value(prefix) == value * 10 + digit);
                assert(value * 10 + digit > usize::MAX) by (nonlinear_arith)
                    requires
                        value > (usize::MAX - digit) / 10,
                        digit <= 9,
                ;
                lemma_digits_stay_large(d, i + 1 - i0);
                assert(digits_value(d) > usize::MAX);
                assert(number_of(s) is None);
            }
            return None;
        }
        assert(value * 10 + digit <= usize::MAX) by (nonlinear_arith)
            requires
                value <= (usize::MAX - digit) / 10,
                digit <= 9,
        ;
        value = value * 10 + digit;
        i = i + 1;
    }
    assert(d == b@.subrange(i0, i as int));
    assert forall|k: int| 0 <= k < d.len() implies is_digit(#[trigger] d[k]) by {
        assert(d[k] == b@[i0 + k]);
    }
    Some(value)
}

/// Once a prefix of a run of digits exceeds a bound, the whole run does.
proof fn lemma_digits_stay_large(d: Seq<u8>, n: int)
    requires
        0 <= n <= d.len(),
    ensures
        digits_value(d) >= digits_value(d.subrange(0, n)),
    decreases d.len() - n,
{
    if n < d.len() {
        lemma_digits_stay_large(d, n + 1);
        assert(d.subrange(0, n + 1).drop_last() == d.subrange(0, n));
    } else {
        assert(d.subrange(0, n) == d);
    }
}

/// Decode the board size of an `SZ` property: `19` or `5:9`.
pub fn parse_board_size(s: &str) -> (r: Result<(usize, usize), ParseError>)
    ensures
        r == (match board_size_of(s.spec_bytes()) {
            Some(size) => Ok(size),
            None => Err(ParseError::BoardSizeParseError),
        }),
{
    let b = s.as_bytes();
    let n = b.len();
    let mut i: usize = 0;
    while i < n
        invariant
            0 <= i <= n == b@.len(),
            forall|j: int| 0 <= j < i ==> b@[j] != 58,
        ensures
            i == n || b@[i as int] == 58,
        decreases n - i,
    {
        if b[i] == 58 {
            break;
        }
        i = i + 1;
    }
    assert(b@.subrange(0, n as int) == b@);
    if i == n {
        return match parse_number(b, 0, n) {
            Some(w) => Ok((w, w)),
            None => Err(ParseError::BoardSizeParseError),
        };
    }
    proof {
        lemma_first_colon(b@, i as int);
    }
    let mut j = i;
    while j < n && b[j] == 58
        invariant
            i <= j <= n == b@.len(),
            skip_colons(b@.subrange(i as int, n as int)) == skip_colons(
                b@.subrange(j as int, n as int),
            ),
        decreases n - j,
    {
        assert(b@.subrange(j as int, n as int).drop_first() == b@.subrange(j + 1, n as int));
        j = j + 1;
    }
    assert(skip_colons(b@.subrange(j as int, n as int)) == b@.subrange(j as int, n as int));
    let w = parse_number(b, 0, i);
    let h = parse_number(b, j, n);
    match (w, h) {
        (Some(w), Some(h)) => Ok((w, h)),
        _ => Err(ParseError::BoardSizeParseError),
    }
}

/// Where `i` is the first colon, the board size is read on either side of it.
proof fn lemma_first_colon(b: Seq<u8>, i: int)
    requires
        0 <= i < b.len(),
        b[i] == 58,
        forall|j: int| 0 <= j < i ==> b[j] != 58,
    ensures
        board_size_of(b) == (match (
            number_of(b.subrange(0, i)),
            number_of(skip_colons(b.subrange(i, b.len() as int))),
        ) {
            (Some(w), Some(h)) => Some((w, h)),
            _ => None,
        }),
{
    let first = choose|k: int|
        0 <= k < b.len() && b[k] == 58 && forall|j: int| 0 <= j < k ==> b[j] != 58;
    assert(first == i) by {
        if first < i {
            assert(b[first] != 58);
        } else if first > i {
            assert(b[i] != 58);
        }
    }
}

} // verus!
