//! Decoding of byte sequences as UTF-8 text.
//!
//! A record that is not valid UTF-8 is dropped by the loader, so the loader
//! needs to know exactly which byte sequences decode and to what. The decoder
//! here produces the sequence of Unicode scalar values of its input, or
//! nothing when the input is not well-formed UTF-8.

use vstd::prelude::*;

verus! {

/// True for a UTF-8 continuation byte (`0x80..=0xBF`).
pub open spec fn is_cont(b: u8) -> bool {
    0x80 <= b && b <= 0xBF
}

/// Admissible second byte of a three-byte sequence led by `b0`
/// (rules out overlong forms and surrogate code points).
pub open spec fn valid_second_of_3(b0: u8, b1: u8) -> bool {
    if b0 == 0xE0 {
        0xA0 <= b1 && b1 <= 0xBF
    } else if b0 == 0xED {
        0x80 <= b1 && b1 <= 0x9F
    } else {
        is_cont(b1)
    }
}

/// Admissible second byte of a four-byte sequence led by `b0`
/// (rules out overlong forms and code points above `0x10FFFF`).
pub open spec fn valid_second_of_4(b0: u8, b1: u8) -> bool {
    if b0 == 0xF0 {
        0x90 <= b1 && b1 <= 0xBF
    } else if b0 == 0xF4 {
        0x80 <= b1 && b1 <= 0x8F
    } else {
        is_cont(b1)
    }
}

/// Decodes the first scalar value of `s`: its encoded length and its code
/// point, or `None` when `s` does not begin with a well-formed UTF-8 sequence.
pub open spec fn utf8_step(s: Seq<u8>) -> Option<(int, u32)> {
    if s.len() == 0 {
        None
    } else {
        let b0 = s[0];
        if b0 < 0x80 {
            Some((1, b0 as u32))
        } else if 0xC2 <= b0 && b0 <= 0xDF {
            if s.len() >= 2 && is_cont(s[1]) {
                Some((2, ((b0 - 0xC0) * 0x40 + (s[1] - 0x80)) as u32))
            } else {
                None
            }
        } else if 0xE0 <= b0 && b0 <= 0xEF {
            if s.len() >= 3 && valid_second_of_3(b0, s[1]) && is_cont(s[2]) {
                Some((3, ((b0 - 0xE0) * 0x1000 + (s[1] - 0x80) * 0x40 + (s[2] - 0x80)) as u32))
            } else {
                None
            }
        } else if 0xF0 <= b0 && b0 <= 0xF4 {
            if s.len() >= 4 && valid_second_of_4(b0, s[1]) && is_cont(s[2]) && is_cont(s[3]) {
                Some((
                    4,
                    ((b0 - 0xF0) * 0x40000 + (s[1] - 0x80) * 0x1000 + (s[2] - 0x80) * 0x40 + (s[3]
                        - 0x80)) as u32,
                ))
            } else {
                None
            }
        } else {
            None
        }
    }
}

/// The scalar values of `s` decoded as UTF-8, or `None` when `s` is not
/// well-formed UTF-8.
pub open spec fn utf8_decode(s: Seq<u8>) -> Option<Seq<u32>>
    decreases s.len(),
{
    if s.len() == 0 {
        Some(Seq::empty())
    } else {
        match utf8_step(s) {
            None => None,
            Some((n, v)) => if 1 <= n && n <= s.len() {
                match utf8_decode(s.skip(n)) {
                    None => None,
                    Some(rest) => Some(seq![v] + rest),
                }
            } else {
                None
            },
        }
    }
}

/// Decodes the first scalar value at offset `i` of `bytes`, reporting its
/// encoded length and code point, or `None` when no well-formed sequence
/// starts there.
fn step_at(bytes: &[u8], i: usize) -> (r: Option<(usize, u32)>)
    requires
        i < bytes@.len(),
    ensures
        match r {
            Some((k, v)) => {
                &&& utf8_step(bytes@.skip(i as int)) == Some((k as int, v))
                &&& 1 <= k
                &&& i + k <= bytes@.len()
            },
            None => utf8_step(bytes@.skip(i as int)) is None,
        },
{
    let ghost s = bytes@.skip(i as int);
    let n = bytes.len();
    let b0 = bytes[i];
    assert(s[0] == bytes@[i as int]);
    if b0 < 0x80 {
        Some((1, b0 as u32))
    } else if 0xC2 <= b0 && b0 <= 0xDF {
        if n - i >= 2 && 0x80 <= bytes[i + 1] && bytes[i + 1] <= 0xBF {
            let b1 = bytes[i + 1];
            assert(s[1] == bytes@[i + 1]);
            Some((2, ((b0 - 0xC0) as u32) * 0x40 + ((b1 - 0x80) as u32)))
        } else {
            assert(s.len() >= 2 ==> s[1] == bytes@[i + 1]);
            None
        }
    } else if 0xE0 <= b0 && b0 <= 0xEF {
        let second_ok = n - i >= 2 && {
            let b1 = bytes[i + 1];
            if b0 == 0xE0 {
                0xA0 <= b1 && b1 <= 0xBF
            } else if b0 == 0xED {
                0x80 <= b1 && b1 <= 0x9F
            } else {
                0x80 <= b1 && b1 <= 0xBF
            }
        };
        if second_ok && n - i >= 3 && 0x80 <= bytes[i + 2] && bytes[i + 2] <= 0xBF {
            let b1 = bytes[i + 1];
            let b2 = bytes[i + 2];
            assert(s[1] == bytes@[i + 1] && s[2] == bytes@[i + 2]);
            Some((3, ((b0 - 0xE0) as u32) * 0x1000 + ((b1 - 0x80) as u32) * 0x40 + ((b2
                - 0x80) as u32)))
        } else {
            assert(s.len() >= 2 ==> s[1] == bytes@[i + 1]);
            assert(s.len() >= 3 ==> s[2] == bytes@[i + 2]);
            None
        }
    } else if 0xF0 <= b0 && b0 <= 0xF4 {
        let second_ok = n - i >= 2 && {
            let b1 = bytes[i + 1];
            if b0 == 0xF0 {
                0x90 <= b1 && b1 <= 0xBF
            } else if b0 == 0xF4 {
                0x80 <= b1 && b1 <= 0x8F
            } else {
                0x80 <= b1 && b1 <= 0xBF
            }
        };
        if second_ok && n - i >= 4 && 0x80 <= bytes[i + 2] && bytes[i + 2] <= 0xBF && 0x80 <= bytes[i
            + 3] && bytes[i + 3] <= 0xBF {
            let b1 = bytes[i + 1];
            let b2 = bytes[i + 2];
            let b3 = bytes[i + 3];
            assert(s[1] == bytes@[i + 1] && s[2] == bytes@[i + 2] && s[3] == bytes@[i + 3]);
            Some((4, ((b0 - 0xF0) as u32) * 0x40000 + ((b1 - 0x80) as u32) * 0x1000 + ((b2
                - 0x80) as u32) * 0x40 + ((b3 - 0x80) as u32)))
        } else {
            assert(s.len() >= 2 ==> s[1] == bytes@[i + 1]);
            assert(s.len() >= 3 ==> s[2] == bytes@[i + 2]);
            assert(s.len() >= 4 ==> s[3] == bytes@[i + 3]);
            None
        }
    } else {
        None
    }
}

/// Decodes `bytes` as UTF-8, returning its scalar values, or `None` when
/// `bytes` is not well-formed UTF-8.
pub fn decode_utf8(bytes: &[u8]) -> (r: Option<Vec<u32>>)
    ensures
        match r {
            Some(v) => utf8_decode(bytes@) == Some(v@),
            None => utf8_decode(bytes@) is None,
        },
{
    let n = bytes.len();
    let mut out: Vec<u32> = Vec::new();
    let mut i: usize = 0;
    proof {
        assert(bytes@.skip(0) =~= bytes@);
        assert forall|rest: Seq<u32>| #[trigger] (Seq::<u32>::empty() + rest) =~= rest by {}
    }
    while i < n
        invariant
            i <= n,
            n == bytes@.len(),
            utf8_decode(bytes@.skip(i as int)) matches Some(rest) ==> utf8_decode(bytes@) == Some(
                out@ + rest,
            ),
            utf8_decode(bytes@.skip(i as int)) is None ==> utf8_decode(bytes@) is None,
        decreases n - i,
    {
        let ghost s = bytes@.skip(i as int);
        match step_at(bytes, i) {
            None => {
                proof {
                    assert(utf8_decode(s) is None);
                }
                return None;
            },
            Some((k, v)) => {
                proof {
                    assert(s.skip(k as int) =~= bytes@.skip(i + k));
                    assert(utf8_decode(s) == match utf8_decode(bytes@.skip(i + k)) {
                        None => None::<Seq<u32>>,
                        Some(rest) => Some(seq![v] + rest),
                    });
                    assert(forall|rest: Seq<u32>| out@.push(v) + rest =~= out@ + (seq![v] + rest));
                }
                out.push(v);
                i = i + k;
            },
        }
    }
    proof {
        assert(bytes@.skip(n as int) =~= Seq::<u8>::empty());
        assert(out@ + Seq::<u32>::empty() =~= out@);
    }
    Some(out)
}

} // verus!
