//! Parsing of ANSI colour names: a stateless text-to-code decoder.  It
//! lives alongside the collection as an independent utility; the collection
//! never calls it.

use vstd::prelude::*;

verus! {

/// Code of the first standard foreground colour.
pub const COLOR_FOREGROUND_ANSI: u8 = 30;

/// Code of the first bright foreground colour.
pub const COLOR_FOREGROUND_BRIGHT_ANSI: u8 = 90;

/// A single-byte colour code (a standard ANSI or 256-palette colour).
pub struct ValueColor {
    pub value: u8,
}

/// The components of a 24-bit colour.
pub struct ValueRGB {
    pub red: u8,
    pub green: u8,
    pub blue: u8,
}

/// A parsed colour specification.
pub enum Color {
    Unspecified,
    Normal,
    Ansi(ValueColor),
    U256(ValueColor),
    RGB(ValueRGB),
}

impl ValueColor {
    /// Wraps a single-byte colour code.
    pub fn new(val: u8) -> (r: Self)
        ensures
            r.value == val,
    {
        Self { value: val }
    }
}

/// The value of `c` as a hexadecimal digit, if it is one.
pub open spec fn hex_digit_value(c: char) -> Option<u32> {
    let v = c as u32;
    if 48 <= v && v <= 57 {
        Some((v - 48) as u32)
    } else if 97 <= v && v <= 102 {
        Some((v - 87) as u32)
    } else if 65 <= v && v <= 70 {
        Some((v - 55) as u32)
    } else {
        None
    }
}

/// The value of `c` as a hexadecimal digit, in either case, or nothing for
/// any other character.
pub fn try_hexval(c: char) -> (r: Option<u32>)
    ensures
        r == hex_digit_value(c),
{
    let v = c as u32;
    if 48 <= v && v <= 57 {
        Some(v - 48)
    } else if 97 <= v && v <= 102 {
        Some(v - 87)
    } else if 65 <= v && v <= 70 {
        Some(v - 55)
    } else {
        None
    }
}

/// The byte value encoded by a pair of hexadecimal digit characters.
pub open spec fn hex_pair_value(a: char, b: char) -> Option<u32> {
    match (hex_digit_value(a), hex_digit_value(b)) {
        (Some(hi), Some(lo)) => Some((hi * 16 + lo) as u32),
        _ => None,
    }
}

/// Decodes a pair of hexadecimal digit characters as one byte value;
/// nothing if either character is not a hexadecimal digit.
pub fn try_get_hex_color(i: (char, char)) -> (r: Option<u32>)
    ensures
        r == hex_pair_value(i.0, i.1),
{
    let hi = match try_hexval(i.0) {
        Some(a) => a,
        None => {
            return None;
        },
    };
    let lo = match try_hexval(i.1) {
        Some(a) => a,
        None => {
            return None;
        },
    };
    let val = hi * 16 + lo;
    if val <= 255 {
        Some(val)
    } else {
        None
    }
}

/// The code point of `c` with an ASCII capital letter folded to lower case.
pub open spec fn lower_code(c: char) -> u32 {
    let v = c as u32;
    if 65 <= v && v <= 90 {
        (v + 32) as u32
    } else {
        v
    }
}

/// Case-insensitive equality of two texts, folding ASCII letters only.
pub open spec fn chars_ieq(a: Seq<char>, b: Seq<char>) -> bool {
    a.len() == b.len() && forall|i: int|
        0 <= i < a.len() ==> lower_code(#[trigger] a[i]) == lower_code(b[i])
}

/// The position of `t` in the ANSI colour table, if `t` names a colour;
/// positions match the ANSI colour codes.
pub open spec fn color_table_index(t: Seq<char>) -> Option<u8> {
    if chars_ieq(t, "black"@) {
        Some(0u8)
    } else if chars_ieq(t, "red"@) {
        Some(1u8)
    } else if chars_ieq(t, "green"@) {
        Some(2u8)
    } else if chars_ieq(t, "yellow"@) {
        Some(3u8)
    } else if chars_ieq(t, "blue"@) {
        Some(4u8)
    } else if chars_ieq(t, "magenta"@) {
        Some(5u8)
    } else if chars_ieq(t, "cyan"@) {
        Some(6u8)
    } else if chars_ieq(t, "white"@) {
        Some(7u8)
    } else {
        None
    }
}

/// The colour code that parsing `s`, limited to its first `len` characters,
/// yields: "default" maps to the default-foreground code; a "bright" prefix
/// moves the named colour into the bright range; anything else is the named
/// colour's position in the standard range, or nothing.
pub open spec fn ansi_color_code(s: Seq<char>, len: int) -> Option<u8> {
    let k = if len < s.len() { len } else { s.len() as int };
    if chars_ieq(s.take(k), "default"@) {
        Some((COLOR_FOREGROUND_ANSI + 9) as u8)
    } else if chars_ieq(s.take(if 6 < k { 6 } else { k }), "bright"@) {
        match color_table_index(s.subrange(6, k)) {
            Some(i) => Some((COLOR_FOREGROUND_BRIGHT_ANSI + i) as u8),
            None => None,
        }
    } else {
        match color_table_index(s.take(k)) {
            Some(i) => Some((COLOR_FOREGROUND_ANSI + i) as u8),
            None => None,
        }
    }
}

/// The colour that parsing `s`, limited to its first `len` characters,
/// yields, if any.
pub open spec fn parse_ansi_color_spec(s: Seq<char>, len: int) -> Option<Color> {
    match ansi_color_code(s, len) {
        Some(v) => Some(Color::Ansi(ValueColor { value: v })),
        None => None,
    }
}

/// The code point of `c` with an ASCII capital letter folded to lower case.
fn lower_char_code(c: char) -> (r: u32)
    ensures
        r == lower_code(c),
{
    let v = c as u32;
    if 65 <= v && v <= 90 {
        v + 32
    } else {
        v
    }
}

/// Compares the characters of `s` from `from` to `to` with `word`,
/// case-insensitively (ASCII folding only).
fn ieq_range(s: &str, from: usize, to: usize, word: &str) -> (b: bool)
    requires
        from <= to <= s@.len(),
    ensures
        b == chars_ieq(s@.subrange(from as int, to as int), word@),
{
    let wn = word.unicode_len();
    if to - from != wn {
        return false;
    }
    let mut j: usize = 0;
    while j < wn
        invariant
            wn == word@.len(),
            to - from == wn,
            from <= to <= s@.len(),
            j <= wn,
            forall|q: int| 0 <= q < j ==> lower_code(#[trigger] s@[from + q]) == lower_code(
                word@[q],
            ),
        decreases wn - j,
    {
        let a = s.get_char(from + j);
        let b = word.get_char(j);
        if lower_char_code(a) != lower_char_code(b) {
            proof {
                assert(s@.subrange(from as int, to as int)[j as int] == s@[from + j]);
            }
            return false;
        }
        j += 1;
    }
    proof {
        assert forall|q: int| 0 <= q < wn implies lower_code(
            #[trigger] s@.subrange(from as int, to as int)[q],
        ) == lower_code(word@[q]) by {
            assert(s@.subrange(from as int, to as int)[q] == s@[from + q]);
        }
    }
    true
}

impl Color {
    /// Finds the colour named by the characters of `name` from `from` to
    /// `to` in the colour table.
    fn color_index(name: &str, from: usize, to: usize) -> (r: Option<u8>)
        requires
            from <= to <= name@.len(),
        ensures
            r == color_table_index(name@.subrange(from as int, to as int)),
    {
        if ieq_range(name, from, to, "black") {
            Some(0)
        } else if ieq_range(name, from, to, "red") {
            Some(1)
        } else if ieq_range(name, from, to, "green") {
            Some(2)
        } else if ieq_range(name, from, to, "yellow") {
            Some(3)
        } else if ieq_range(name, from, to, "blue") {
            Some(4)
        } else if ieq_range(name, from, to, "magenta") {
            Some(5)
        } else if ieq_range(name, from, to, "cyan") {
            Some(6)
        } else if ieq_range(name, from, to, "white") {
            Some(7)
        } else {
            None
        }
    }

    /// Parses an ANSI colour name, limited to the first `len` characters of
    /// `name`: "default", or a colour name with an optional "bright"
    /// prefix, compared case-insensitively.
    pub fn try_parse_ansi_color(name: &str, len: usize) -> (r: Option<Color>)
        ensures
            r == parse_ansi_color_spec(name@, len as int),
    {
        let n = name.unicode_len();
        let k = if len < n {
            len
        } else {
            n
        };
        proof {
            assert(name@.subrange(0, k as int) =~= name@.take(k as int));
        }
        if ieq_range(name, 0, k, "default") {
            return Some(Color::Ansi(ValueColor::new(COLOR_FOREGROUND_ANSI + 9)));
        }
        let k6 = if 6 < k {
            6
        } else {
            k
        };
        proof {
            assert(name@.subrange(0, k6 as int) =~= name@.take(k6 as int));
        }
        if ieq_range(name, 0, k6, "bright") {
            proof {
                reveal_strlit("bright");
            }
            match Self::color_index(name, 6, k) {
                Some(i) => Some(Color::Ansi(ValueColor::new(COLOR_FOREGROUND_BRIGHT_ANSI + i))),
                None => None,
            }
        } else {
            match Self::color_index(name, 0, k) {
                Some(i) => Some(Color::Ansi(ValueColor::new(COLOR_FOREGROUND_ANSI + i))),
                None => None,
            }
        }
    }
}

} // verus!
