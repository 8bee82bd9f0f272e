//! UTF-16 code units: assembling them from byte pairs and decoding them to characters.
use vstd::prelude::*;

verus! {

/// A leading (high) surrogate.
pub open spec fn is_high_surrogate(u: u16) -> bool {
    0xD800 <= u && u < 0xDC00
}

/// A trailing (low) surrogate.
pub open spec fn is_low_surrogate(u: u16) -> bool {
    0xDC00 <= u && u < 0xE000
}

/// The scalar value that a surrogate pair encodes.
pub open spec fn pair_value(hi: u16, lo: u16) -> int {
    0x10000 + (hi - 0xD800) * 0x400 + (lo - 0xDC00)
}

/// Decodes UTF-16 code units; `None` when an unpaired surrogate occurs.
pub open spec fn utf16_decode(u: Seq<u16>) -> Option<Seq<char>>
    decreases u.len(),
{
    if u.len() == 0 {
        Some(Seq::empty())
    } else if is_high_surrogate(u[0]) {
        if u.len() >= 2 && is_low_surrogate(u[1]) {
            match utf16_decode(u.skip(2)) {
                Some(rest) => Some(seq![pair_value(u[0], u[1]) as char] + rest),
                None => None,
            }
        } else {
            None
        }
    } else if is_low_surrogate(u[0]) {
        None
    } else {
        match utf16_decode(u.skip(1)) {
            Some(rest) => Some(seq![u[0] as char] + rest),
            None => None,
        }
    }
}

/// Big-endian code units of consecutive byte pairs; an odd trailing byte is not used.
pub open spec fn be_units(b: Seq<u8>) -> Seq<u16> {
    Seq::new(b.len() / 2, |i: int| (b[2 * i] * 0x100 + b[2 * i + 1]) as u16)
}

/// Little-endian code units of consecutive byte pairs; an odd trailing byte is not used.
pub open spec fn le_units(b: Seq<u8>) -> Seq<u16> {
    Seq::new(b.len() / 2, |i: int| (b[2 * i + 1] * 0x100 + b[2 * i]) as u16)
}

/// A `u32` that is a Unicode scalar value.
pub open spec fn is_scalar(v: u32) -> bool {
    v <= 0xD7FF || (0xE000 <= v && v <= 0x10FFFF)
}

/// Calls `char::from_u32`. Claimed, as its documentation says: a character with that
/// value exactly when the value is a Unicode scalar value, otherwise `None`.
#[verifier::external_body]
pub(crate) fn char_from_u32(v: u32) -> (r: Option<char>)
    ensures
        match r {
            Some(c) => is_scalar(v) && c as int == v as int,
            None => !is_scalar(v),
        },
{
    char::from_u32(v)
}

/// Code units of the bytes from `start` on, big- or little-endian.
pub fn units_of(b: &[u8], start: usize, little: bool) -> (r: Vec<u16>)
    requires
        start <= b@.len(),
    ensures
        r@ == (if little {
            le_units(b@.skip(start as int))
        } else {
            be_units(b@.skip(start as int))
        }),
{
    let ghost tail = b@.skip(start as int);
    let mut r: Vec<u16> = Vec::new();
    let mut i: usize = start;
    while b.len() - i >= 2
        invariant
            start <= i <= b.len(),
            (i - start) % 2 == 0,
            tail == b@.skip(start as int),
            r@.len() == (i - start) / 2,
            forall|k: int|
                0 <= k < r@.len() ==> #[trigger] r@[k] == (if little {
                    le_units(tail)[k]
                } else {
                    be_units(tail)[k]
                }),
        decreases b.len() - i,
    {
        let hi: u16 = if little { b[i + 1] as u16 } else { b[i] as u16 };
        let lo: u16 = if little { b[i] as u16 } else { b[i + 1] as u16 };
        let u: u16 = hi * 256 + lo;
        proof {
            let k = r@.len() as int;
            assert(tail[2 * k] == b@[i as int]);
            assert(tail[2 * k + 1] == b@[i + 1]);
        }
        r.push(u);
        i = i + 2;
    }
    proof {
        let want = if little {
            le_units(tail)
        } else {
            be_units(tail)
        };
        assert(r@ =~= want);
    }
    r
}

/// `o` with `p` put in front of what it holds.
pub open spec fn prefixed(p: Seq<char>, o: Option<Seq<char>>) -> Option<Seq<char>> {
    match o {
        Some(r) => Some(p + r),
        None => None,
    }
}

/// Decodes UTF-16 code units into characters; `None` on an unpaired surrogate.
pub fn decode_utf16(u: &Vec<u16>) -> (r: Option<Vec<char>>)
    ensures
        match r {
            Some(v) => utf16_decode(u@) == Some(v@),
            None => utf16_decode(u@) is None,
        },
{
    let mut out: Vec<char> = Vec::new();
    let mut i: usize = 0;
    proof {
        assert(u@.skip(0) =~= u@);
        match utf16_decode(u@) {
            Some(r) => assert(Seq::<char>::empty() + r =~= r),
            None => {},
        }
    }
    while i < u.len()
        invariant
            i <= u.len(),
            utf16_decode(u@) == prefixed(out@, utf16_decode(u@.skip(i as int))),
        decreases u.len() - i,
    {
        let c = u[i];
        let ghost s = u@.skip(i as int);
        if 0xD800 <= c && c < 0xDC00 {
            if i + 1 < u.len() && 0xDC00 <= u[i + 1] && u[i + 1] < 0xE000 {
                let lo = u[i + 1];
                let v: u32 = 0x10000 + (c as u32 - 0xD800) * 0x400 + (lo as u32 - 0xDC00);
                match char_from_u32(v) {
                    Some(ch) => {
                        proof {
                            assert(s.skip(2) =~= u@.skip(i + 2));
                            assert(v == pair_value(s[0], s[1]));
                            assert(ch as int == pair_value(s[0], s[1]));
                            assert((pair_value(s[0], s[1]) as char) == ch);
                            assert(out@.push(ch) + utf16_decode(u@.skip(i + 2)).unwrap_or(
                                Seq::empty(),
                            ) =~= out@ + (seq![ch] + utf16_decode(u@.skip(i + 2)).unwrap_or(
                                Seq::empty(),
                            )));
                        }
                        out.push(ch);
                        i = i + 2;
                    },
                    None => {
                        return None;
                    },
                }
            } else {
                return None;
            }
        } else if 0xDC00 <= c && c < 0xE000 {
            return None;
        } else {
            let ch = match char_from_u32(c as u32) {
                Some(ch) => ch,
                None => {
                    return None;
                },
            };
            proof {
                assert(s.skip(1) =~= u@.skip(i + 1));
                assert(ch as int == s[0] as int);
                assert((s[0] as char) == ch);
                assert(out@.push(ch) + utf16_decode(u@.skip(i + 1)).unwrap_or(Seq::empty())
                    =~= out@ + (seq![ch] + utf16_decode(u@.skip(i + 1)).unwrap_or(
                    Seq::empty(),
                )));
            }
            out.push(ch);
            i = i + 1;
        }
    }
    proof {
        assert(u@.skip(i as int) =~= Seq::<u16>::empty());
        assert(out@ + Seq::<char>::empty() =~= out@);
    }
    Some(out)
}

} // verus!
