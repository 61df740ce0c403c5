use crate::point::{Bounds, Vector};
use crate::scalar::UNITS;
use crate::text::{pieces, split, texts, to_chars};
use vstd::prelude::*;

verus! {

/// Why a text is no extent.
#[derive(Clone, Copy, Debug, PartialEq, Eq, Structural)]
pub enum ExtentError {
    /// The text holds neither four nor six fields.
    WrongCount,
    /// A field is no scalar.
    BadNumber,
    /// On some axis the lower end is above the upper end.
    MinAboveMax,
}

/// Whether the character is a decimal digit.
pub open spec fn is_digit(c: char) -> bool {
    48 <= c as int <= 57
}

/// Whether every character is a decimal digit.
pub open spec fn all_digits(s: Seq<char>) -> bool {
    forall|i: int| 0 <= i < s.len() ==> is_digit(s[i])
}

/// The number that a run of digits writes.
pub open spec fn digits_value(s: Seq<char>) -> int
    decreases s.len(),
{
    if s.len() == 0 {
        0
    } else {
        digits_value(s.drop_last()) * 10 + (s.last() as int - 48)
    }
}

/// Where the first decimal point stands; the length where none does.
pub open spec fn first_point(s: Seq<char>) -> int
    decreases s.len(),
{
    if s.len() == 0 {
        0
    } else {
        let before = first_point(s.drop_last());
        if before < s.len() - 1 || s.last() == '.' {
            before
        } else {
            s.len() as int
        }
    }
}

/// The thousandths that the digits behind a decimal point stand for. Digits
/// behind the third are dropped.
pub open spec fn thousandths(fraction: Seq<char>) -> int {
    if fraction.len() == 0 {
        0
    } else if fraction.len() == 1 {
        digits_value(fraction.take(1)) * 100
    } else if fraction.len() == 2 {
        digits_value(fraction.take(2)) * 10
    } else {
        digits_value(fraction.take(3))
    }
}

/// The scalar that a field writes: a sign or none, then digits with at most
/// one decimal point among them and at least one digit in all. A field of
/// another form writes none, nor does one whose scalar is too large.
pub open spec fn scalar_of(field: Seq<char>) -> Option<i64> {
    let negative = field.len() > 0 && field[0] == '-';
    let signed = field.len() > 0 && (field[0] == '-' || field[0] == '+');
    let body = if signed {
        field.skip(1)
    } else {
        field
    };
    let point = first_point(body);
    let whole = body.take(point);
    let fraction = if point < body.len() {
        body.skip(point + 1)
    } else {
        Seq::<char>::empty()
    };
    if all_digits(whole) && all_digits(fraction) && whole.len() + fraction.len() > 0 {
        signed_scalar(negative, digits_value(whole) * UNITS + thousandths(fraction))
    } else {
        None
    }
}

/// The scalar of the given sign and magnitude, if the magnitude is not too
/// large.
pub open spec fn signed_scalar(negative: bool, magnitude: int) -> Option<i64> {
    if magnitude > i64::MAX {
        None
    } else if negative {
        Some((-magnitude) as i64)
    } else {
        Some(magnitude as i64)
    }
}

/// The fields of a text: what stands between its commas.
pub open spec fn fields(s: Seq<char>) -> Seq<Seq<char>> {
    pieces(s, ',')
}

/// The extent that six scalars or four give. Six are the lower corner and
/// then the upper corner; four are the same without elevations, and the
/// extent then spans every elevation.
pub open spec fn extent_from(v: Seq<i64>) -> Bounds {
    if v.len() == 6 {
        Bounds {
            min: Vector { x: v[0], y: v[1], z: v[2] },
            max: Vector { x: v[3], y: v[4], z: v[5] },
        }
    } else {
        Bounds {
            min: Vector { x: v[0], y: v[1], z: i64::MIN },
            max: Vector { x: v[2], y: v[3], z: i64::MAX },
        }
    }
}

/// Whether on each axis the lower end is no higher than the upper end.
pub open spec fn is_ordered(b: Bounds) -> bool {
    b.min.x <= b.max.x && b.min.y <= b.max.y && b.min.z <= b.max.z
}

/// Whether every field writes a scalar.
pub open spec fn all_scalars(f: Seq<Seq<char>>) -> bool {
    forall|i: int| 0 <= i < f.len() ==> scalar_of(#[trigger] f[i]).is_some()
}

/// The extent that a text writes, or why it writes none.
pub open spec fn extent_of(s: Seq<char>) -> Result<Bounds, ExtentError> {
    let f = fields(s);
    let bounds = extent_from(Seq::new(f.len(), |i: int| scalar_of(f[i]).unwrap()));
    if f.len() != 4 && f.len() != 6 {
        Err(ExtentError::WrongCount)
    } else if !all_scalars(f) {
        Err(ExtentError::BadNumber)
    } else if !is_ordered(bounds) {
        Err(ExtentError::MinAboveMax)
    } else {
        Ok(bounds)
    }
}

/// The number that a run of digits writes, as far as it is counted.
spec fn capped_value(s: Seq<char>) -> int {
    if digits_value(s) > 10_000_000_000_000_000 {
        10_000_000_000_000_000
    } else {
        digits_value(s)
    }
}

proof fn lemma_digits_value(s: Seq<char>)
    requires
        all_digits(s),
    ensures
        digits_value(s) >= 0,
    decreases s.len(),
{
    if s.len() > 0 {
        lemma_digits_value(s.drop_last());
    }
}

proof fn lemma_first_point(s: Seq<char>, p: int)
    requires
        0 <= p <= s.len(),
        forall|j: int| 0 <= j < p ==> s[j] != '.',
        p < s.len() ==> s[p] == '.',
    ensures
        first_point(s) == p,
    decreases s.len(),
{
    if s.len() > 0 {
        if p == s.len() {
            lemma_first_point(s.drop_last(), p - 1);
        } else {
            lemma_first_point(s.drop_last(), p);
        }
    }
}

proof fn lemma_short_digits(s: Seq<char>)
    requires
        all_digits(s),
        s.len() <= 3,
    ensures
        digits_value(s) <= if s.len() == 0 {
            0int
        } else if s.len() == 1 {
            9int
        } else if s.len() == 2 {
            99int
        } else {
            999int
        },
    decreases s.len(),
{
    if s.len() > 0 {
        lemma_short_digits(s.drop_last());
    }
}

/// The digit that a character writes.
fn digit_of(c: char) -> (d: Option<u8>)
    ensures
        d.is_some() == is_digit(c),
        d matches Some(v) ==> v == c as int - 48,
{
    match c {
        '0' => Some(0),
        '1' => Some(1),
        '2' => Some(2),
        '3' => Some(3),
        '4' => Some(4),
        '5' => Some(5),
        '6' => Some(6),
        '7' => Some(7),
        '8' => Some(8),
        '9' => Some(9),
        _ => None,
    }
}

fn find_point(chars: &Vec<char>, from: usize) -> (p: usize)
    requires
        from <= chars@.len(),
    ensures
        from <= p <= chars@.len(),
        p - from == first_point(chars@.skip(from as int)),
{
    let mut p: usize = from;
    while p < chars.len() && chars[p] != '.'
        invariant
            from <= p <= chars@.len(),
            forall|j: int| from <= j < p ==> chars@[j] != '.',
        decreases chars@.len() - p,
    {
        p = p + 1;
    }
    proof {
        lemma_first_point(chars@.skip(from as int), p - from);
    }
    p
}

fn read_digits(chars: &Vec<char>, from: usize, to: usize) -> (r: Option<u128>)
    requires
        from <= to <= chars@.len(),
    ensures
        r.is_some() == all_digits(chars@.subrange(from as int, to as int)),
        r matches Some(v) ==> v == capped_value(chars@.subrange(from as int, to as int)),
{
    let mut acc: u128 = 0;
    let mut i: usize = from;
    while i < to
        invariant
            from <= i <= to <= chars@.len(),
            all_digits(chars@.subrange(from as int, i as int)),
            acc == capped_value(chars@.subrange(from as int, i as int)),
            0 <= acc <= 10_000_000_000_000_000,
        decreases to - i,
    {
        let digit: u8 = match digit_of(chars[i]) {
            Some(d) => d,
            None => {
                proof {
                    assert(chars@.subrange(from as int, to as int)[i - from] == chars@[i as int]);
                }
                return None;
            },
        };
        proof {
            let now = chars@.subrange(from as int, i + 1);
            assert(now.drop_last() =~= chars@.subrange(from as int, i as int));
            assert(now.last() == chars@[i as int]);
            lemma_digits_value(chars@.subrange(from as int, i as int));
            assert forall|j: int| 0 <= j < now.len() implies is_digit(now[j]) by {
                if j < now.len() - 1 {
                    assert(now[j] == chars@.subrange(from as int, i as int)[j]);
                }
            }
        }
        let next: u128 = acc * 10 + digit as u128;
        acc = if next > 10_000_000_000_000_000 {
            10_000_000_000_000_000
        } else {
            next
        };
        i = i + 1;
    }
    Some(acc)
}

/// Puts a scalar together from the digits before the decimal point and the
/// first three behind it.
fn assemble(
    negative: bool,
    w: u128,
    f: u128,
    digits: usize,
    Ghost(whole): Ghost<Seq<char>>,
    Ghost(fraction): Ghost<Seq<char>>,
) -> (r: Option<i64>)
    requires
        all_digits(whole),
        all_digits(fraction),
        w == capped_value(whole),
        f == capped_value(fraction.take(digits as int)),
        digits == if fraction.len() > 3 {
            3
        } else {
            fraction.len()
        },
    ensures
        r == signed_scalar(negative, digits_value(whole) * UNITS + thousandths(fraction)),
{
    let scale: u128 = if digits == 0 {
        0
    } else if digits == 1 {
        100
    } else if digits == 2 {
        10
    } else {
        1
    };
    proof {
        let shown = fraction.take(digits as int);
        assert forall|i: int| 0 <= i < shown.len() implies is_digit(shown[i]) by {
            assert(shown[i] == fraction[i]);
        }
        lemma_digits_value(whole);
        lemma_digits_value(shown);
        lemma_short_digits(shown);
        assert(f * scale == thousandths(fraction)) by {
            if digits == 0 {
                assert(f * 0 == 0);
            }
        }
    }
    let magnitude: u128 = w * 1000 + f * scale;
    if magnitude > i64::MAX as u128 {
        None
    } else if negative {
        Some(-(magnitude as i64))
    } else {
        Some(magnitude as i64)
    }
}

/// Reads the scalar that a field writes.
pub fn parse_scalar(field: &Vec<char>) -> (r: Option<i64>)
    ensures
        r == scalar_of(field@),
{
    let len: usize = field.len();
    let negative: bool = len > 0 && field[0] == '-';
    let signed: bool = len > 0 && (field[0] == '-' || field[0] == '+');
    let start: usize = if signed {
        1
    } else {
        0
    };
    let point: usize = find_point(field, start);
    let behind: usize = if point < len {
        point + 1
    } else {
        len
    };
    let shown_to: usize = if len - behind > 3 {
        behind + 3
    } else {
        len
    };
    let ghost body = field@.skip(start as int);
    let ghost whole = body.take(point - start);
    let ghost fraction = if point - start < body.len() {
        body.skip(point - start + 1)
    } else {
        Seq::<char>::empty()
    };
    proof {
        assert(whole =~= field@.subrange(start as int, point as int));
        assert(fraction =~= field@.subrange(behind as int, len as int));
        assert(fraction.take(shown_to - behind) =~= field@.subrange(
            behind as int,
            shown_to as int,
        ));
        if start == 0 {
            assert(body =~= field@);
        }
    }
    if (point - start) + (len - behind) == 0 {
        return None;
    }
    let w: u128 = match read_digits(field, start, point) {
        Some(w) => w,
        None => {
            return None;
        },
    };
    if read_digits(field, behind, len).is_none() {
        return None;
    }
    let f: u128 = match read_digits(field, behind, shown_to) {
        Some(f) => f,
        None => {
            proof {
                let shown = fraction.take(shown_to - behind);
                assert forall|i: int| 0 <= i < shown.len() implies is_digit(shown[i]) by {
                    assert(shown[i] == fraction[i]);
                }
            }
            return None;
        },
    };
    assemble(negative, w, f, shown_to - behind, Ghost(whole), Ghost(fraction))
}

/// Reads an extent from a text of four or six scalars with commas between
/// them.
pub fn extent_parser(s: &str) -> (r: Result<Bounds, ExtentError>)
    ensures
        r == extent_of(s@),
{
    let chars: Vec<char> = to_chars(s);
    let parts: Vec<Vec<char>> = split(&chars, ',');
    if parts.len() != 4 && parts.len() != 6 {
        return Err(ExtentError::WrongCount);
    }
    let ghost f = fields(s@);
    let mut v: Vec<i64> = Vec::new();
    let mut i: usize = 0;
    while i < parts.len()
        invariant
            i <= parts@.len(),
            texts(parts@) == f,
            f == fields(s@),
            parts@.len() == 4 || parts@.len() == 6,
            v@.len() == i,
            forall|j: int| 0 <= j < i ==> scalar_of(#[trigger] f[j]) == Some(v@[j]),
        decreases parts@.len() - i,
    {
        proof {
            assert(f[i as int] == parts@[i as int]@);
        }
        match parse_scalar(&parts[i]) {
            Some(x) => {
                v.push(x);
            },
            None => {
                proof {
                    assert(scalar_of(f[i as int]).is_none());
                }
                return Err(ExtentError::BadNumber);
            },
        }
        i = i + 1;
    }
    proof {
        assert(v@ =~= Seq::new(f.len(), |i: int| scalar_of(f[i]).unwrap()));
    }
    let bounds: Bounds = if v.len() == 6 {
        Bounds {
            min: Vector { x: v[0], y: v[1], z: v[2] },
            max: Vector { x: v[3], y: v[4], z: v[5] },
        }
    } else {
        Bounds {
            min: Vector { x: v[0], y: v[1], z: i64::MIN },
            max: Vector { x: v[2], y: v[3], z: i64::MAX },
        }
    };
    if bounds.min.x > bounds.max.x || bounds.min.y > bounds.max.y || bounds.min.z > bounds.max.z {
        Err(ExtentError::MinAboveMax)
    } else {
        Ok(bounds)
    }
}

} // verus!
