//! Weights as a definition writes them: decimal numbers with a point, kept
//! as whole numbers of millionths.

use crate::graph::{INFINITY, UNIT};
use crate::text::{digits_end, is_digit, lemma_digits_end, ParseStream};
use vstd::prelude::*;

verus! {

/// The number that a decimal digit stands for.
pub open spec fn digit_value(c: char) -> nat {
    (c as u32 - '0' as u32) as nat
}

/// The number that a run of decimal digits stands for.
pub open spec fn digits_value(digits: Seq<char>) -> nat
    decreases digits.len(),
{
    if digits.len() == 0 {
        0
    } else {
        digits_value(digits.drop_last()) * 10 + digit_value(digits.last())
    }
}

/// The first six digits after the point, as millionths; absent digits
/// count as zeros and later ones are dropped.
pub open spec fn fraction_units(fraction: Seq<char>) -> nat {
    digits_value(
        Seq::new(
            6,
            |i: int|
                if i < fraction.len() {
                    fraction[i]
                } else {
                    '0'
                },
        ),
    )
}

/// `n`, or `INFINITY` where `n` is that large or larger.
pub open spec fn saturate(n: nat) -> u64 {
    if n >= INFINITY {
        INFINITY
    } else {
        n as u64
    }
}

/// The weight written with the digits `whole` before the point and
/// `fraction` after it.
pub open spec fn weight_units(whole: Seq<char>, fraction: Seq<char>) -> u64 {
    saturate(digits_value(whole) * UNIT as nat + fraction_units(fraction))
}

/// The weight written at `at` and the place where it ends: one or more
/// digits, a point, and any number of digits. `None` where no such number
/// stands there.
pub open spec fn weight_at(text: Seq<char>, at: int) -> Option<(u64, int)> {
    let point = digits_end(text, at);
    if point == at || !(point < text.len() && text[point] == '.') {
        None
    } else {
        let end = digits_end(text, point + 1);
        Some((weight_units(text.subrange(at, point), text.subrange(point + 1, end)), end))
    }
}

/// Appending a digit multiplies by ten and adds the digit.
pub proof fn lemma_digits_push(digits: Seq<char>, c: char)
    ensures
        digits_value(digits.push(c)) == digits_value(digits) * 10 + digit_value(c),
{
    assert(digits.push(c).drop_last() =~= digits);
}

/// The number that the digit `c` stands for.
fn digit_of(c: char) -> (d: u64)
    requires
        is_digit(c),
    ensures
        d == digit_value(c),
        d <= 9,
{
    (c as u32 - '0' as u32) as u64
}

/// Reads the weight that comes next. Where none stands there the result is
/// `None` and the reading stays where it was.
pub fn read_weight(stream: &mut ParseStream) -> (weight: Option<u64>)
    requires
        old(stream).well_formed(),
    ensures
        final(stream).well_formed(),
        final(stream).text() == old(stream).text(),
        match weight {
            Some(units) => weight_at(old(stream).text(), old(stream).position()) == Some(
                (units, final(stream).position()),
            ) && old(stream).position() < final(stream).position() <= final(stream).text().len(),
            None => weight_at(old(stream).text(), old(stream).position()) is None
                && final(stream).position() == old(stream).position(),
        },
{
    let start = stream.offset();
    let point = stream.digits_end(start);
    if point == start || !(point < stream.len() && stream.char_at(point) == '.') {
        return None;
    }
    let end = stream.digits_end(point + 1);
    let ghost text = stream.text();
    proof {
        lemma_digits_end(text, start as int);
        lemma_digits_end(text, point + 1);
    }
    let mut whole: u64 = 0;
    let mut overflow = false;
    let mut i = start;
    while i < point
        invariant
            stream.well_formed(),
            stream.text() == text,
            start <= i <= point <= text.len(),
            forall|j: int| start <= j < point ==> is_digit(#[trigger] text[j]),
            !overflow ==> whole == digits_value(text.subrange(start as int, i as int)),
            overflow ==> digits_value(text.subrange(start as int, i as int)) > u64::MAX,
        decreases point - i,
    {
        let d = digit_of(stream.char_at(i));
        proof {
            lemma_digits_push(text.subrange(start as int, i as int), text[i as int]);
            assert(text.subrange(start as int, i + 1) =~= text.subrange(start as int, i as int).push(
                text[i as int],
            ));
        }
        if !overflow {
            if whole > (u64::MAX - d) / 10 {
                overflow = true;
            } else {
                whole = whole * 10 + d;
            }
        }
        i = i + 1;
    }
    let ghost padded = Seq::new(
        6,
        |k: int|
            if k < text.subrange(point + 1, end as int).len() {
                text.subrange(point + 1, end as int)[k]
            } else {
                '0'
            },
    );
    let mut fraction: u64 = 0;
    let mut scale: u64 = 1;
    let mut k: usize = 0;
    while k < 6
        invariant
            stream.well_formed(),
            stream.text() == text,
            0 <= k <= 6,
            point + 1 <= end <= text.len(),
            forall|j: int| point + 1 <= j < end ==> is_digit(#[trigger] text[j]),
            padded.len() == 6,
            forall|j: int|
                0 <= j < 6 ==> #[trigger] padded[j] == (if j < end - (point + 1) {
                    text[point + 1 + j]
                } else {
                    '0'
                }),
            fraction == digits_value(padded.take(k as int)),
            fraction < scale,
            scale == (if k == 0 {
                1u64
            } else if k == 1 {
                10u64
            } else if k == 2 {
                100u64
            } else if k == 3 {
                1_000u64
            } else if k == 4 {
                10_000u64
            } else if k == 5 {
                100_000u64
            } else {
                1_000_000u64
            }),
        decreases 6 - k,
    {
        let d = if k < end - (point + 1) {
            digit_of(stream.char_at(point + 1 + k))
        } else {
            0
        };
        proof {
            lemma_digits_push(padded.take(k as int), padded[k as int]);
            assert(padded.take(k + 1) =~= padded.take(k as int).push(padded[k as int]));
        }
        fraction = fraction * 10 + d;
        scale = scale * 10;
        k = k + 1;
    }
    proof {
        assert(padded.take(6) =~= padded);
    }
    stream.seek(end);
    if overflow {
        return Some(INFINITY);
    }
    match whole.checked_mul(UNIT) {
        None => Some(INFINITY),
        Some(scaled) => match scaled.checked_add(fraction) {
            None => Some(INFINITY),
            Some(units) => Some(units),
        },
    }
}

} // verus!
