//! Reading a byte-sized number out of the values that a configuration file
//! may give for a note or a channel: integers of any width, or decimal text.
use vstd::prelude::*;
use vstd::string::StringSliceAdditionalSpecFns;

verus! {

/// The value of a sequence of decimal digits.
pub open spec fn decimal_value(digits: Seq<u8>) -> nat
    decreases digits.len(),
{
    if digits.len() == 0 {
        0
    } else {
        decimal_value(digits.drop_last()) * 10 + (digits.last() - 48) as nat
    }
}

/// Whether a byte is an ASCII decimal digit.
pub open spec fn is_digit(b: u8) -> bool {
    48 <= b <= 57
}

/// The digits after an optional leading '+'.
pub open spec fn unsigned_digits(b: Seq<u8>) -> Seq<u8> {
    if b.len() > 0 && b[0] == 43 {
        b.drop_first()
    } else {
        b
    }
}

/// What `str::parse::<u8>` gives for these bytes: an optional '+' followed
/// by at least one decimal digit, whose value is at most 255; anything else
/// is refused.
pub open spec fn parse_u8_spec(b: Seq<u8>) -> Option<u8> {
    let d = unsigned_digits(b);
    if d.len() > 0 && (forall|i: int| 0 <= i < d.len() ==> is_digit(#[trigger] d[i])) && decimal_value(d) <= 255 {
        Some(decimal_value(d) as u8)
    } else {
        None
    }
}

proof fn lemma_decimal_value_monotone(d: Seq<u8>, k: int)
    requires
        0 <= k <= d.len(),
        forall|i: int| 0 <= i < d.len() ==> is_digit(#[trigger] d[i]),
    ensures
        decimal_value(d.take(k)) <= decimal_value(d),
    decreases d.len(),
{
    if k < d.len() {
        assert(d.drop_last().take(k) =~= d.take(k));
        assert forall|i: int| 0 <= i < d.drop_last().len() implies is_digit(#[trigger] d.drop_last()[i]) by {
            assert(d.drop_last()[i] == d[i]);
        }
        lemma_decimal_value_monotone(d.drop_last(), k);
        assert(is_digit(d[d.len() - 1]));
    } else {
        assert(d.take(k) =~= d);
    }
}

/// Reads a byte-sized unsigned number as `str::parse::<u8>` does.
pub fn parse_u8(s: &str) -> (r: Option<u8>)
    ensures
        r == parse_u8_spec(s.spec_bytes()),
{
    let b = s.as_bytes();
    let ghost d = unsigned_digits(b@);
    let mut i: usize = 0;
    if b.len() > 0 && b[0] == 43u8 {
        i = 1;
    }
    if i >= b.len() {
        return None;
    }
    let start = i;
    assert(d =~= b@.skip(start as int));
    let mut value: u16 = 0;
    while i < b.len()
        invariant
            start <= i <= b@.len(),
            start < b@.len(),
            d == b@.skip(start as int),
            d == unsigned_digits(b@),
            b@ == s.spec_bytes(),
            forall|k: int| 0 <= k < i - start ==> is_digit(#[trigger] d[k]),
            value as nat == decimal_value(d.take(i - start)),
            value <= 255,
        decreases b@.len() - i,
    {
        let c = b[i];
        if c < 48u8 || c > 57u8 {
            assert(!is_digit(d[i - start]));
            return None;
        }
        proof {
            assert(d.take(i - start + 1).drop_last() =~= d.take(i - start));
            assert(d.take(i - start + 1).last() == c);
        }
        let next: u16 = value * 10 + (c - 48u8) as u16;
        if next > 255 {
            proof {
                assert forall|k: int| 0 <= k < i - start + 1 implies is_digit(#[trigger] d[k]) by {}
                if forall|k: int| 0 <= k < d.len() ==> is_digit(#[trigger] d[k]) {
                    lemma_decimal_value_monotone(d, i - start + 1);
                }
            }
            return None;
        }
        value = next;
        i = i + 1;
    }
    assert(d.take(i - start) =~= d);
    Some(value as u8)
}

/// The byte that an integer stands for, if it lies between 0 and 255.
pub fn u8_from_i128(v: i128) -> (r: Option<u8>)
    ensures
        r == (if 0 <= v <= 255 { Some(v as u8) } else { None }),
{
    if 0 <= v && v <= 255 {
        Some(v as u8)
    } else {
        None
    }
}

/// The byte that an integer stands for, if it is at most 255.
pub fn u8_from_u128(v: u128) -> (r: Option<u8>)
    ensures
        r == (if v <= 255 { Some(v as u8) } else { None }),
{
    if v <= 255 {
        Some(v as u8)
    } else {
        None
    }
}

} // verus!
