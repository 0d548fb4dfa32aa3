//! String conversion helpers: wide-string (UTF-16) encoding and decoding as
//! the native window layer needs them, and char-vector bridges.

use vstd::prelude::*;
use vstd::string::StrSliceExecFns;

verus! {

broadcast use vstd::utf8::char_is_scalar, vstd::utf8::char_u32_cast;

/// Relies on `char::from_u32`: returns `Some` exactly for the allowed
/// scalar values (below the surrogate range, or between its end and
/// 0x10FFFF inclusive), and the returned character has code point `v`.
#[verifier::external_body]
pub(crate) fn char_from_u32(v: u32) -> (r: Option<char>)
    ensures
        r is Some <==> (v < 0xD800 || (0xE000 <= v && v <= 0x10FFFF)),
        r matches Option::Some(c) ==> c as u32 == v,
{
    char::from_u32(v)
}

/// Relies on `String::from_iter` over a character iterator: the returned
/// string holds exactly the given characters, in order.
#[verifier::external_body]
pub(crate) fn string_from_chars(v: &Vec<char>) -> (r: String)
    ensures
        r@ == v@,
{
    v.iter().collect()
}

/// The characters of a string slice, as a vector.
pub fn chars_of_str(s: &str) -> (r: Vec<char>)
    ensures
        r@ == s@,
{
    let n = s.unicode_len();
    let mut r: Vec<char> = Vec::new();
    let mut i: usize = 0;
    while i < n
        invariant
            i <= n,
            n == s@.len(),
            r@ == s@.take(i as int),
        decreases n - i,
    {
        r.push(s.get_char(i));
        proof {
            assert(r@ =~= s@.take(i + 1));
        }
        i = i + 1;
    }
    proof {
        assert(s@.take(n as int) =~= s@);
    }
    r
}

/// The UTF-16 code units of one character: one unit for a basic-plane
/// character, a surrogate pair for the rest.
pub open spec fn utf16_units(c: char) -> Seq<u16> {
    let u = c as u32;
    if u < 0x10000 {
        seq![u as u16]
    } else {
        seq![(0xD800 + (u - 0x10000) / 0x400) as u16, (0xDC00 + (u - 0x10000) % 0x400) as u16]
    }
}

/// The UTF-16 encoding of a character sequence, without a terminator.
pub open spec fn utf16_encode(s: Seq<char>) -> Seq<u16>
    decreases s.len(),
{
    if s.len() == 0 {
        Seq::empty()
    } else {
        utf16_units(s[0]) + utf16_encode(s.drop_first())
    }
}

proof fn lemma_utf16_encode_push(s: Seq<char>, c: char)
    ensures
        utf16_encode(s.push(c)) == utf16_encode(s) + utf16_units(c),
    decreases s.len(),
{
    if s.len() == 0 {
        assert(s.push(c)[0] == c);
        assert(s.push(c).drop_first() =~= Seq::<char>::empty());
        assert(utf16_encode(s.push(c)) == utf16_units(c) + utf16_encode(Seq::<char>::empty()));
        assert(utf16_encode(s.push(c)) =~= utf16_encode(s) + utf16_units(c));
    } else {
        assert(s.push(c)[0] == s[0]);
        assert(s.push(c).drop_first() =~= s.drop_first().push(c));
        lemma_utf16_encode_push(s.drop_first(), c);
        assert(utf16_encode(s.push(c)) == utf16_units(s[0]) + (utf16_encode(s.drop_first())
            + utf16_units(c)));
        assert(utf16_encode(s) == utf16_units(s[0]) + utf16_encode(s.drop_first()));
        assert(utf16_encode(s.push(c)) =~= utf16_encode(s) + utf16_units(c));
    }
}

/// Encodes a string as NUL-terminated UTF-16, as the native window layer
/// expects its wide strings.
pub fn to_utf16(string: &str) -> (r: Vec<u16>)
    ensures
        r@ == utf16_encode(string@).push(0u16),
{
    let n = string.unicode_len();
    let mut r: Vec<u16> = Vec::new();
    proof {
        assert(utf16_encode(string@.take(0)) =~= Seq::<u16>::empty());
    }
    let mut i: usize = 0;
    while i < n
        invariant
            i <= n,
            n == string@.len(),
            r@ == utf16_encode(string@.take(i as int)),
        decreases n - i,
    {
        let c = string.get_char(i);
        let u = c as u32;
        if u < 0x10000 {
            r.push(u as u16);
        } else {
            let hi = 0xD800u32 + (u - 0x10000) / 0x400;
            let lo = 0xDC00u32 + (u - 0x10000) % 0x400;
            r.push(hi as u16);
            r.push(lo as u16);
        }
        proof {
            lemma_utf16_encode_push(string@.take(i as int), string@[i as int]);
            assert(string@.take(i + 1) =~= string@.take(i as int).push(string@[i as int]));
            assert(r@ =~= utf16_encode(string@.take(i + 1)));
        }
        i = i + 1;
    }
    proof {
        assert(string@.take(n as int) =~= string@);
    }
    r.push(0);
    r
}

/// Decodes a NUL-terminated wide string, one basic-plane character per code
/// unit: the characters before the first zero unit, or before the end.  A
/// surrogate unit is no character, and yields `None`.
pub open spec fn wstr_decode(s: Seq<u16>) -> Option<Seq<char>>
    decreases s.len(),
{
    if s.len() == 0 {
        Some(Seq::empty())
    } else if s[0] == 0 {
        Some(Seq::empty())
    } else if 0xD800 <= s[0] < 0xE000 {
        None
    } else {
        match wstr_decode(s.drop_first()) {
            Option::None => None,
            Option::Some(t) => Some(seq![(s[0] as u32) as char] + t),
        }
    }
}

/// Encoding then decoding restores a string, as long as every character is
/// a basic-plane character other than NUL: encoding such a string yields
/// one non-zero, non-surrogate unit per character before the terminator,
/// and decoding stops exactly at the terminator.
pub proof fn lemma_wide_round_trip(s: Seq<char>)
    requires
        forall|i: int|
            0 <= i < s.len() ==> ((#[trigger] s[i]) as u32 > 0 && (s[i] as u32) < 0x10000),
    ensures
        wstr_decode(utf16_encode(s).push(0u16)) == Some(s),
    decreases s.len(),
{
    if s.len() == 0 {
        assert(utf16_encode(s).push(0u16) =~= seq![0u16]);
        assert(Seq::<char>::empty() =~= s);
    } else {
        let c = s[0];
        let u = c as u32;
        let rest = utf16_encode(s.drop_first()).push(0u16);
        let w = utf16_encode(s).push(0u16);
        assert(w =~= seq![u as u16] + rest);
        assert(w[0] == u as u16);
        vstd::utf8::char_is_scalar(c);
        assert(u < 0xD800 || u >= 0xE000);
        assert(u as u16 == u) by (bit_vector)
            requires
                u < 0x10000,
        ;
        assert(u as u16 != 0);
        assert(!(0xD800 <= (u as u16) < 0xE000));
        assert(w.drop_first() =~= rest);
        lemma_wide_round_trip(s.drop_first());
        vstd::utf8::char_u32_cast(c, (u as u16) as u32);
        assert((w[0] as u32) as char == c);
        assert(seq![c] + s.drop_first() =~= s);
    }
}

/// Decodes a wide string as `wstr_decode` describes: reading stops at the
/// first zero unit; a surrogate unit makes the whole result `None`.
pub fn from_wstr(value: &[u16]) -> (r: Option<String>)
    ensures
        match r {
            Option::Some(s) => wstr_decode(value@) == Some(s@),
            Option::None => wstr_decode(value@) is None,
        },
{
    let n = value.len();
    let mut out: Vec<char> = Vec::new();
    proof {
        assert(value@.skip(0) =~= value@);
    }
    let mut i: usize = 0;
    while i < n
        invariant
            i <= n,
            n == value@.len(),
            wstr_decode(value@) == (match wstr_decode(value@.skip(i as int)) {
                Option::Some(t) => Some(out@ + t),
                Option::None => None::<Seq<char>>,
            }),
        decreases n - i,
    {
        let x = value[i];
        proof {
            assert(value@.skip(i as int)[0] == value@[i as int]);
        }
        if x == 0 {
            let s = string_from_chars(&out);
            proof {
                assert(out@ + Seq::<char>::empty() =~= out@);
            }
            return Some(s);
        }
        if 0xD800 <= x && x < 0xE000 {
            return None;
        }
        match char_from_u32(x as u32) {
            Option::Some(c) => {
                out.push(c);
                proof {
                    let suffix = value@.skip(i as int);
                    assert(suffix.drop_first() =~= value@.skip(i + 1));
                    assert(c as u32 == x as u32);
                    assert(x as u32 == value@[i as int] as u32);
                    vstd::utf8::char_u32_cast(c, value@[i as int] as u32);
                    assert(c == (value@[i as int] as u32) as char);
                    if wstr_decode(value@.skip(i + 1)) is Some {
                        let t = wstr_decode(value@.skip(i + 1))->0;
                        assert((out@ + t) =~= (out@.drop_last() + (seq![c] + t)));
                    }
                }
            },
            Option::None => {
                proof {
                    assert(false);
                }
            },
        }
        i = i + 1;
    }
    proof {
        assert(value@.skip(n as int) =~= Seq::<u16>::empty());
        assert(out@ + Seq::<char>::empty() =~= out@);
    }
    let s = string_from_chars(&out);
    Some(s)
}

} // verus!
