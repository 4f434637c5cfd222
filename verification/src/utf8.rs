use vstd::prelude::*;

verus! {

/// A UTF-8 continuation byte.
pub open spec fn is_cont(b: u8) -> bool {
    0x80 <= b && b <= 0xBF
}

/// Validity of a byte sequence as UTF-8, following the scalar-value encoding:
/// no overlong forms, no surrogates, nothing above U+10FFFF.
pub open spec fn utf8_ok(s: Seq<u8>) -> bool
    decreases s.len(),
{
    if s.len() == 0 {
        true
    } else {
        let b0 = s[0];
        if b0 < 0x80 {
            utf8_ok(s.skip(1))
        } else if 0xC2 <= b0 && b0 <= 0xDF {
            s.len() >= 2 && is_cont(s[1]) && utf8_ok(s.skip(2))
        } else if b0 == 0xE0 {
            s.len() >= 3 && 0xA0 <= s[1] && s[1] <= 0xBF && is_cont(s[2]) && utf8_ok(s.skip(3))
        } else if (0xE1 <= b0 && b0 <= 0xEC) || b0 == 0xEE || b0 == 0xEF {
            s.len() >= 3 && is_cont(s[1]) && is_cont(s[2]) && utf8_ok(s.skip(3))
        } else if b0 == 0xED {
            s.len() >= 3 && 0x80 <= s[1] && s[1] <= 0x9F && is_cont(s[2]) && utf8_ok(s.skip(3))
        } else if b0 == 0xF0 {
            s.len() >= 4 && 0x90 <= s[1] && s[1] <= 0xBF && is_cont(s[2]) && is_cont(s[3])
                && utf8_ok(s.skip(4))
        } else if 0xF1 <= b0 && b0 <= 0xF3 {
            s.len() >= 4 && is_cont(s[1]) && is_cont(s[2]) && is_cont(s[3]) && utf8_ok(s.skip(4))
        } else if b0 == 0xF4 {
            s.len() >= 4 && 0x80 <= s[1] && s[1] <= 0x8F && is_cont(s[2]) && is_cont(s[3])
                && utf8_ok(s.skip(4))
        } else {
            false
        }
    }
}

/// Decide whether `s` is valid UTF-8.
pub fn check_utf8(s: &[u8]) -> (r: bool)
    ensures
        r == utf8_ok(s@),
{
    let n = s.len();
    let mut i: usize = 0;
    proof {
        assert(s@.skip(0) =~= s@);
    }
    while i < n
        invariant
            0 <= i <= n,
            n == s@.len(),
            utf8_ok(s@) == utf8_ok(s@.skip(i as int)),
        decreases n - i,
    {
        let ghost suf = s@.skip(i as int);
        let b0 = s[i];
        proof {
            assert(suf.len() == n - i);
            assert(suf[0] == s@[i as int]);
        }
        let step: usize;
        if b0 < 0x80 {
            step = 1;
        } else if 0xC2 <= b0 && b0 <= 0xDF {
            if !(n - i >= 2 && 0x80 <= s[i + 1] && s[i + 1] <= 0xBF) {
                proof {
                    if suf.len() >= 2 {
                        assert(suf[1] == s@[i + 1]);
                    }
                }
                return false;
            }
            step = 2;
        } else if 0xE0 <= b0 && b0 <= 0xEF {
            if !(n - i >= 3) {
                return false;
            }
            let b1 = s[i + 1];
            let b2 = s[i + 2];
            proof {
                assert(suf[1] == s@[i + 1]);
                assert(suf[2] == s@[i + 2]);
            }
            let b1_ok: bool = if b0 == 0xE0 {
                0xA0 <= b1 && b1 <= 0xBF
            } else if b0 == 0xED {
                0x80 <= b1 && b1 <= 0x9F
            } else {
                0x80 <= b1 && b1 <= 0xBF
            };
            if !(b1_ok && 0x80 <= b2 && b2 <= 0xBF) {
                return false;
            }
            step = 3;
        } else if 0xF0 <= b0 && b0 <= 0xF4 {
            if !(n - i >= 4) {
                return false;
            }
            let b1 = s[i + 1];
            let b2 = s[i + 2];
            let b3 = s[i + 3];
            proof {
                assert(suf[1] == s@[i + 1]);
                assert(suf[2] == s@[i + 2]);
                assert(suf[3] == s@[i + 3]);
            }
            let b1_ok: bool = if b0 == 0xF0 {
                0x90 <= b1 && b1 <= 0xBF
            } else if b0 == 0xF4 {
                0x80 <= b1 && b1 <= 0x8F
            } else {
                0x80 <= b1 && b1 <= 0xBF
            };
            if !(b1_ok && 0x80 <= b2 && b2 <= 0xBF && 0x80 <= b3 && b3 <= 0xBF) {
                return false;
            }
            step = 4;
        } else {
            return false;
        }
        proof {
            assert(suf.skip(step as int) =~= s@.skip(i + step));
        }
        i += step;
    }
    proof {
        assert(s@.skip(i as int) =~= Seq::<u8>::empty());
    }
    true
}

} // verus!
