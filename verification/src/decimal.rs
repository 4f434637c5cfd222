use vstd::prelude::*;

use crate::table::split_on;

verus! {

/// Numeric cells are exact decimals held as counts of thousandths.
pub const SCALE: i64 = 1000;

pub open spec fn is_digit(b: u8) -> bool {
    48 <= b && b <= 57
}

pub open spec fn all_digits(s: Seq<u8>) -> bool {
    forall|i: int| 0 <= i < s.len() ==> is_digit(#[trigger] s[i])
}

/// The value of a run of decimal digit bytes.
pub open spec fn digits_val(s: Seq<u8>) -> int
    decreases s.len(),
{
    if s.len() == 0 {
        0
    } else {
        digits_val(s.drop_last()) * 10 + (s.last() - 48)
    }
}

pub open spec fn pow10(n: nat) -> int
    decreases n,
{
    if n == 0 {
        1
    } else {
        10 * pow10((n - 1) as nat)
    }
}

/// The digits of a decimal literal, with a leading minus sign stripped.
pub open spec fn dec_body(f: Seq<u8>) -> Seq<u8> {
    if f.len() > 0 && f[0] == 45 {
        f.skip(1)
    } else {
        f
    }
}

pub open spec fn dec_sign(f: Seq<u8>) -> int {
    if f.len() > 0 && f[0] == 45 {
        -1
    } else {
        1
    }
}

/// Whether `f` has the shape of a decimal literal: an optional minus sign,
/// one or more integer digits, and optionally a point with one to three
/// fraction digits.
pub open spec fn dec_shape_ok(f: Seq<u8>) -> bool {
    let parts = split_on(dec_body(f), 46);
    ||| (parts.len() == 1 && parts[0].len() >= 1 && all_digits(parts[0]))
    ||| (parts.len() == 2 && parts[0].len() >= 1 && all_digits(parts[0]) && 1 <= parts[1].len()
        <= 3 && all_digits(parts[1]))
}

/// The magnitude of a decimal literal in thousandths.
pub open spec fn dec_mag(f: Seq<u8>) -> int {
    let parts = split_on(dec_body(f), 46);
    let frac = if parts.len() == 2 {
        digits_val(parts[1]) * pow10((3 - parts[1].len()) as nat)
    } else {
        0
    };
    digits_val(parts[0]) * 1000 + frac
}

/// The signed value of a decimal literal in thousandths.
pub open spec fn dec_val(f: Seq<u8>) -> int {
    dec_sign(f) * dec_mag(f)
}

/// A field is numeric when it is a decimal literal whose value in
/// thousandths fits the `i64` magnitude range.
pub open spec fn is_num_field(f: Seq<u8>) -> bool {
    dec_shape_ok(f) && dec_mag(f) <= i64::MAX
}

pub proof fn lemma_digits_val_nonneg(s: Seq<u8>)
    requires
        all_digits(s),
    ensures
        digits_val(s) >= 0,
    decreases s.len(),
{
    if s.len() > 0 {
        assert(all_digits(s.drop_last()));
        lemma_digits_val_nonneg(s.drop_last());
    }
}

pub proof fn lemma_digits_val_upper(s: Seq<u8>)
    requires
        all_digits(s),
    ensures
        digits_val(s) < pow10(s.len()),
    decreases s.len(),
{
    if s.len() > 0 {
        assert(all_digits(s.drop_last()));
        lemma_digits_val_upper(s.drop_last());
    }
}

/// Extending a digit run to the right never decreases its value.
pub proof fn lemma_digits_val_mono(s: Seq<u8>, i: int)
    requires
        all_digits(s),
        0 <= i <= s.len(),
    ensures
        digits_val(s.take(i)) <= digits_val(s),
    decreases s.len() - i,
{
    if i < s.len() {
        assert(all_digits(s.take(i + 1)));
        assert(s.take(i + 1).drop_last() =~= s.take(i));
        assert(s.take(i + 1).last() == s[i]);
        lemma_digits_val_nonneg(s.take(i));
        lemma_digits_val_mono(s, i + 1);
    } else {
        assert(s.take(i) =~= s);
    }
}

/// Parse a run of decimal digits into its value, `None` when the run is
/// empty, holds a non-digit, or does not fit in `i64`.
fn parse_digits(d: &[u8]) -> (r: Option<i64>)
    ensures
        r is Some <==> (d@.len() >= 1 && all_digits(d@) && digits_val(d@) <= i64::MAX),
        r matches Some(v) ==> v == digits_val(d@) && v >= 0,
{
    if d.len() == 0 {
        return None;
    }
    let mut acc: i64 = 0;
    let mut i: usize = 0;
    proof {
        assert(d@.take(0) =~= Seq::<u8>::empty());
    }
    while i < d.len()
        invariant
            0 <= i <= d@.len(),
            all_digits(d@.take(i as int)),
            acc == digits_val(d@.take(i as int)),
            acc >= 0,
        decreases d@.len() - i,
    {
        let b = d[i];
        proof {
            assert(d@.take(i + 1).drop_last() =~= d@.take(i as int));
            assert(d@.take(i + 1).last() == d@[i as int]);
        }
        if !(48 <= b && b <= 57) {
            proof {
                assert(!is_digit(d@[i as int]));
            }
            return None;
        }
        let digit = (b - 48) as i64;
        proof {
            assert(all_digits(d@.take(i + 1)));
        }
        if acc > (i64::MAX - digit) / 10 {
            proof {
                let m = i64::MAX - digit;
                assert(m == 10 * (m / 10) + m % 10);
                assert(0 <= m % 10 < 10);
                assert(acc * 10 >= (m / 10) * 10 + 10);
                assert(acc * 10 + digit > i64::MAX);
                if all_digits(d@) {
                    lemma_digits_val_mono(d@, i + 1);
                }
            }
            return None;
        }
        proof {
            let m = i64::MAX - digit;
            assert(m == 10 * (m / 10) + m % 10);
            assert(0 <= m % 10 < 10);
            assert(acc * 10 <= (m / 10) * 10);
            assert(acc * 10 + digit <= i64::MAX);
        }
        acc = acc * 10 + digit;
        i += 1;
    }
    proof {
        assert(d@.take(i as int) =~= d@);
    }
    Some(acc)
}

/// Parse one field as a decimal literal in thousandths. Returns `Some`
/// exactly when the field is numeric.
pub fn parse_field(f: &[u8]) -> (r: Option<i64>)
    ensures
        r is Some <==> is_num_field(f@),
        r matches Some(v) ==> v == dec_val(f@),
{
    let neg = f.len() > 0 && f[0] == 45;
    let body: &[u8] = if neg {
        vstd::slice::slice_subrange(f, 1, f.len())
    } else {
        f
    };
    proof {
        assert(body@ =~= dec_body(f@));
    }
    let parts = crate::table::split_bytes(body, 46);
    let ghost sparts = split_on(dec_body(f@), 46);
    proof {
        assert(parts@.len() == sparts.len());
        assert(forall|k: int| 0 <= k < parts@.len() ==> (#[trigger] parts@[k])@ == sparts[k]);
    }
    if parts.len() == 1 {
        let iv = parse_digits(parts[0].as_slice());
        match iv {
            None => {
                proof {
                    if digits_val(sparts[0]) > i64::MAX && sparts[0].len() >= 1 && all_digits(
                        sparts[0],
                    ) {
                        lemma_digits_val_nonneg(sparts[0]);
                        assert(dec_mag(f@) >= digits_val(sparts[0]));
                    }
                }
                None
            },
            Some(v) => {
                if v > i64::MAX / 1000 {
                    proof {
                        let m = i64::MAX as int;
                        assert(m == 1000 * (m / 1000) + m % 1000);
                        assert(0 <= m % 1000 < 1000);
                        assert(v * 1000 >= (m / 1000) * 1000 + 1000);
                        assert(dec_mag(f@) > i64::MAX);
                    }
                    return None;
                }
                proof {
                    let m = i64::MAX as int;
                    assert(m == 1000 * (m / 1000) + m % 1000);
                    assert(0 <= m % 1000 < 1000);
                    assert(v * 1000 <= (m / 1000) * 1000);
                }
                let mag = v * 1000;
                if neg {
                    Some(-mag)
                } else {
                    Some(mag)
                }
            },
        }
    } else if parts.len() == 2 {
        let frac_len = parts[1].len();
        if !(1 <= frac_len && frac_len <= 3) {
            return None;
        }
        let fv = match parse_digits(parts[1].as_slice()) {
            None => {
                proof {
                    if all_digits(sparts[1]) {
                        lemma_digits_val_upper(sparts[1]);
                        assert(pow10(0) == 1);
                        assert(pow10(1) == 10);
                        assert(pow10(2) == 100);
                        assert(pow10(3) == 1000);
                    }
                }
                return None;
            },
            Some(x) => x,
        };
        proof {
            lemma_digits_val_upper(sparts[1]);
            assert(pow10(0) == 1);
            assert(pow10(1) == 10);
            assert(pow10(2) == 100);
            assert(pow10(3) == 1000);
        }
        let frac: i64 = if frac_len == 1 {
            fv * 100
        } else if frac_len == 2 {
            fv * 10
        } else {
            fv
        };
        proof {
            assert(pow10(0) == 1);
            assert(frac == digits_val(sparts[1]) * pow10((3 - sparts[1].len()) as nat));
            assert(0 <= frac < 1000);
        }
        let iv = match parse_digits(parts[0].as_slice()) {
            None => {
                proof {
                    if sparts[0].len() >= 1 && all_digits(sparts[0]) && digits_val(sparts[0])
                        > i64::MAX {
                        assert(dec_mag(f@) >= digits_val(sparts[0]));
                    }
                }
                return None;
            },
            Some(x) => x,
        };
        if iv > (i64::MAX - frac) / 1000 {
            proof {
                let m = i64::MAX - frac;
                assert(m == 1000 * (m / 1000) + m % 1000);
                assert(0 <= m % 1000 < 1000);
                assert(iv * 1000 >= (m / 1000) * 1000 + 1000);
                assert(dec_mag(f@) > i64::MAX);
            }
            return None;
        }
        proof {
            let m = i64::MAX - frac;
            assert(m == 1000 * (m / 1000) + m % 1000);
            assert(0 <= m % 1000 < 1000);
            assert(iv * 1000 <= (m / 1000) * 1000);
        }
        let mag = iv * 1000 + frac;
        if neg {
            Some(-mag)
        } else {
            Some(mag)
        }
    } else {
        None
    }
}

} // verus!
