//! UTF-16: how text becomes code units, and how code units become text again.

use vstd::prelude::*;

verus! {

/// The character that stands for code units that do not make up a character.
pub const REPLACEMENT: char = '\u{FFFD}';

/// The one or two code units of a character.
pub open spec fn char_units(c: char) -> Seq<u16> {
    let v = c as u32;
    if v < 0x1_0000 {
        seq![v as u16]
    } else {
        seq![(0xD800 + (v - 0x1_0000) / 0x400) as u16, (0xDC00 + (v - 0x1_0000) % 0x400) as u16]
    }
}

/// The code units of a text.
pub open spec fn utf16_encode(s: Seq<char>) -> Seq<u16>
    decreases s.len(),
{
    if s.len() == 0 {
        Seq::empty()
    } else {
        char_units(s[0]) + utf16_encode(s.drop_first())
    }
}

/// Whether a code unit is the first of a pair.
pub open spec fn is_high_surrogate(u: u16) -> bool {
    0xD800 <= u < 0xDC00
}

/// Whether a code unit is the second of a pair.
pub open spec fn is_low_surrogate(u: u16) -> bool {
    0xDC00 <= u < 0xE000
}

/// The character that a pair of code units stands for.
pub open spec fn pair_char(high: u16, low: u16) -> char {
    ((0x1_0000 + (high - 0xD800) * 0x400 + (low - 0xDC00)) as u32) as char
}

/// The text of some code units, in which each half of a pair that stands alone becomes the
/// replacement character.
pub open spec fn utf16_decode_lossy(u: Seq<u16>) -> Seq<char>
    decreases u.len(),
{
    if u.len() == 0 {
        Seq::empty()
    } else if is_high_surrogate(u[0]) && u.len() >= 2 && is_low_surrogate(u[1]) {
        seq![pair_char(u[0], u[1])] + utf16_decode_lossy(u.skip(2))
    } else if is_high_surrogate(u[0]) || is_low_surrogate(u[0]) {
        seq![REPLACEMENT] + utf16_decode_lossy(u.drop_first())
    } else {
        seq![(u[0] as u32) as char] + utf16_decode_lossy(u.drop_first())
    }
}

/// `char::from_u32` of std: the character with the given number, unless that number is past
/// the last character or in the range of the surrogates.
pub assume_specification[ char::from_u32 ](i: u32) -> (r: Option<char>)
    ensures
        r is Some <==> (i < 0xD800 || 0xE000 <= i <= 0x10_FFFF),
        r matches Some(c) ==> c as u32 == i,
;

/// `String::push` of std: appends the given character.
pub assume_specification[ String::push ](s: &mut String, c: char)
    ensures
        final(s)@ == old(s)@.push(c),
;

/// Text that was encoded decodes to itself.
pub proof fn law_utf16_round_trip(s: Seq<char>)
    ensures
        utf16_decode_lossy(utf16_encode(s)) == s,
    decreases s.len(),
{
    if s.len() > 0 {
        let rest = utf16_encode(s.drop_first());
        let u = utf16_encode(s);
        let v = s[0] as u32;
        vstd::utf8::char_is_scalar(s[0]);
        law_utf16_round_trip(s.drop_first());
        if v < 0x1_0000 {
            assert(u.drop_first() =~= rest);
            vstd::utf8::char_u32_cast(s[0], u[0] as u32);
            assert((u[0] as u32) as char == s[0]);
        } else {
            assert(u.skip(2) =~= rest);
            let w = (0x1_0000 + (u[0] - 0xD800) * 0x400 + (u[1] - 0xDC00)) as u32;
            vstd::utf8::char_u32_cast(s[0], w);
            assert(pair_char(u[0], u[1]) == s[0]);
        }
        assert(utf16_decode_lossy(u) =~= s);
    } else {
        assert(utf16_decode_lossy(utf16_encode(s)) =~= s);
    }
}

/// A text has a code unit zero just where it has a character zero.
pub proof fn lemma_utf16_encode_zero(s: Seq<char>)
    ensures
        utf16_encode(s).contains(0u16) <==> s.contains('\0'),
    decreases s.len(),
{
    if s.len() > 0 {
        lemma_utf16_encode_zero(s.drop_first());
        let rest = utf16_encode(s.drop_first());
        let u = utf16_encode(s);
        let n = char_units(s[0]).len() as int;
        vstd::utf8::char_is_scalar(s[0]);
        assert(u.skip(n) =~= rest);
        if s.contains('\0') {
            let i = choose|i: int| 0 <= i < s.len() && s[i] == '\0';
            if i > 0 {
                assert(s.drop_first()[i - 1] == '\0');
                let j = choose|j: int| 0 <= j < rest.len() && rest[j] == 0u16;
                assert(u[n + j] == 0u16);
            } else {
                assert(u[0] == 0u16);
            }
        }
        if u.contains(0u16) {
            let j = choose|j: int| 0 <= j < u.len() && u[j] == 0u16;
            if j >= n {
                assert(rest[j - n] == 0u16);
                let i = choose|i: int| 0 <= i < s.drop_first().len() && s.drop_first()[i] == '\0';
                assert(s[i + 1] == '\0');
            } else {
                assert(s[0] as u32 == 0);
                vstd::utf8::char_u32_cast(s[0], 0);
                vstd::utf8::char_u32_cast('\0', 0);
                assert(s[0] == '\0');
            }
        }
    }
}

/// Text that was decoded takes no more code units than it was decoded from, and has a character
/// zero only if these had a zero.
pub proof fn lemma_utf16_decode_bounds(u: Seq<u16>)
    ensures
        utf16_encode(utf16_decode_lossy(u)).len() <= u.len(),
        !u.contains(0u16) ==> !utf16_decode_lossy(u).contains('\0'),
    decreases u.len(),
{
    let s = utf16_decode_lossy(u);
    if u.len() > 0 {
        let n: int = if is_high_surrogate(u[0]) && u.len() >= 2 && is_low_surrogate(u[1]) {
            2
        } else {
            1
        };
        let rest = utf16_decode_lossy(u.skip(n));
        assert(u.drop_first() =~= u.skip(1));
        lemma_utf16_decode_bounds(u.skip(n));
        assert(s.drop_first() =~= rest);
        vstd::utf8::char_is_scalar(s[0]);
        if n == 1 {
            if is_high_surrogate(u[0]) || is_low_surrogate(u[0]) {
                assert(REPLACEMENT as u32 == 0xFFFD);
            } else {
                assert(((u[0] as u32) as char) as u32 == u[0]);
            }
            assert(char_units(s[0]).len() == 1);
        }
        assert(char_units(s[0]).len() <= n);
        if !u.contains(0u16) {
            assert(!u.skip(n).contains(0u16)) by {
                if u.skip(n).contains(0u16) {
                    let i = choose|i: int| 0 <= i < u.skip(n).len() && u.skip(n)[i] == 0u16;
                    assert(u[n + i] == 0u16);
                }
            }
            assert(u.contains(u[0]));
            assert(s[0] != '\0') by {
                if n == 2 {
                    let w = 0x1_0000 + (u[0] - 0xD800) * 0x400 + (u[1] - 0xDC00);
                    assert(0x1_0000 <= w <= 0x10_FFFF);
                    assert(((w as u32) as char) as u32 == w);
                }
                assert('\0' as u32 == 0);
            }
            if s.contains('\0') {
                let i = choose|i: int| 0 <= i < s.len() && s[i] == '\0';
                assert(rest[i - 1] == '\0');
            }
        }
    }
}

/// Whether no half of a pair stands alone among some code units.
pub open spec fn is_utf16(u: Seq<u16>) -> bool
    decreases u.len(),
{
    if u.len() == 0 {
        true
    } else if is_high_surrogate(u[0]) {
        u.len() >= 2 && is_low_surrogate(u[1]) && is_utf16(u.skip(2))
    } else {
        !is_low_surrogate(u[0]) && is_utf16(u.drop_first())
    }
}

/// Code units in which no half of a pair stands alone are those of the text that they decode to.
pub proof fn law_utf16_units_are_kept(u: Seq<u16>)
    requires
        is_utf16(u),
    ensures
        utf16_encode(utf16_decode_lossy(u)) == u,
    decreases u.len(),
{
    let s = utf16_decode_lossy(u);
    if u.len() > 0 {
        if is_high_surrogate(u[0]) {
            law_utf16_units_are_kept(u.skip(2));
            assert(s.drop_first() =~= utf16_decode_lossy(u.skip(2)));
            let w = 0x1_0000 + (u[0] - 0xD800) * 0x400 + (u[1] - 0xDC00);
            assert(0x1_0000 <= w <= 0x10_FFFF);
            assert(((w as u32) as char) as u32 == w);
            assert(char_units(s[0]) =~= seq![u[0], u[1]]);
        } else {
            law_utf16_units_are_kept(u.drop_first());
            assert(s.drop_first() =~= utf16_decode_lossy(u.drop_first()));
            assert(((u[0] as u32) as char) as u32 == u[0]);
            assert(char_units(s[0]) =~= seq![u[0]]);
        }
        assert(utf16_encode(s) =~= u);
    } else {
        assert(utf16_encode(s) =~= u);
    }
}

/// The code units of a text.
pub(crate) fn encode(s: &str) -> (r: Vec<u16>)
    ensures
        r@ == utf16_encode(s@),
{
    let mut units: Vec<u16> = Vec::new();
    assert(s@.skip(0) =~= s@);
    for c in it: s.chars()
        invariant
            it.seq() == s@,
            units@ + utf16_encode(s@.skip(it.index())) == utf16_encode(s@),
    {
        let ghost before = units@;
        let ghost i = it.index();
        assert(s@.skip(i)[0] == c);
        assert(s@.skip(i).drop_first() =~= s@.skip(i + 1));
        proof {
            vstd::utf8::char_is_scalar(c);
        }
        let v: u32 = c as u32;
        if v < 0x1_0000 {
            units.push(v as u16);
        } else {
            let w: u32 = v - 0x1_0000;
            units.push((0xD800 + w / 0x400) as u16);
            units.push((0xDC00 + w % 0x400) as u16);
        }
        assert(units@ =~= before + char_units(c));
        assert(units@ + utf16_encode(s@.skip(i + 1)) =~= before + utf16_encode(s@.skip(i)));
    }
    assert(s@.skip(s@.len() as int) =~= Seq::<char>::empty());
    assert(units@ =~= units@ + utf16_encode(s@.skip(s@.len() as int)));
    units
}

/// The text of some code units, with the replacement character for what is not text.
pub(crate) fn decode_lossy(units: &[u16]) -> (r: String)
    ensures
        r@ == utf16_decode_lossy(units@),
{
    let mut text = String::new();
    let mut i: usize = 0;
    assert(units@.skip(0) =~= units@);
    while i < units.len()
        invariant
            i <= units@.len(),
            text@ + utf16_decode_lossy(units@.skip(i as int)) == utf16_decode_lossy(units@),
        decreases units@.len() - i,
    {
        let ghost before = text@;
        let ghost rest = units@.skip(i as int);
        let u: u16 = units[i];
        assert(rest[0] == u);
        let mut c: char = REPLACEMENT;
        let mut taken: usize = 1;
        if 0xD800 <= u && u < 0xDC00 {
            if units.len() - i >= 2 {
                let l: u16 = units[i + 1];
                assert(rest[1] == l);
                if 0xDC00 <= l && l < 0xE000 {
                    let v: u32 = 0x1_0000 + (u as u32 - 0xD800) * 0x400 + (l as u32 - 0xDC00);
                    if let Some(p) = char::from_u32(v) {
                        proof {
                            vstd::utf8::char_u32_cast(p, v);
                        }
                        c = p;
                    }
                    taken = 2;
                }
            }
        } else if let Some(p) = char::from_u32(u as u32) {
            proof {
                vstd::utf8::char_u32_cast(p, u as u32);
            }
            c = p;
        }
        text.push(c);
        proof {
            assert(rest.skip(taken as int) =~= units@.skip(i + taken));
            assert(rest.drop_first() =~= rest.skip(1));
            assert(utf16_decode_lossy(rest) == seq![c] + utf16_decode_lossy(
                rest.skip(taken as int),
            ));
            assert(text@ + utf16_decode_lossy(units@.skip(i + taken)) =~= before
                + utf16_decode_lossy(rest));
        }
        i = i + taken;
    }
    assert(units@.skip(i as int) =~= Seq::<u16>::empty());
    assert(text@ =~= text@ + utf16_decode_lossy(units@.skip(i as int)));
    text
}

} // verus!
