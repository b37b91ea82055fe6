//! Colors.
use vstd::prelude::*;
use crate::error::{ConfigError, ParseResult};
use crate::text::{chars_of, pieces, split_on, string_of, sub_chars, trim, trimmed, views};
use crate::expressions::{all_digits, digits_value, lemma_digits_value_monotone};
use crate::text::is_digit;

verus! {

/// An RGBA color, eight bits per channel.
#[derive(Debug, Clone, Copy, PartialEq, Eq, Structural)]
pub struct Color {
    pub r: u8,
    pub g: u8,
    pub b: u8,
    pub a: u8,
}

/// The value of a hexadecimal digit.
pub open spec fn hex_value(c: char) -> Option<u8> {
    if '0' <= c && c <= '9' {
        Some((c as u32 - '0' as u32) as u8)
    } else if 'a' <= c && c <= 'f' {
        Some((c as u32 - 'a' as u32 + 10) as u8)
    } else if 'A' <= c && c <= 'F' {
        Some((c as u32 - 'A' as u32 + 10) as u8)
    } else {
        None
    }
}

/// The byte that the two hexadecimal digits of `s` from position `k` spell.
pub open spec fn hex_byte(s: Seq<char>, k: int) -> Option<u8> {
    match (hex_value(s[k]), hex_value(s[k + 1])) {
        (Some(hi), Some(lo)) => Some((hi * 16 + lo) as u8),
        _ => None,
    }
}

/// `s` without every `0x` it starts with.
pub open spec fn strip_hex_prefix(s: Seq<char>) -> Seq<char>
    decreases s.len(),
{
    if s.len() >= 2 && s[0] == '0' && s[1] == 'x' {
        strip_hex_prefix(s.skip(2))
    } else {
        s
    }
}

/// The color that `RRGGBB` or `RRGGBBAA` (after any `0x` prefixes) spells, if any.
pub open spec fn hex_color(s: Seq<char>) -> Option<Color> {
    let h = strip_hex_prefix(s);
    if h.len() != 6 && h.len() != 8 {
        None
    } else {
        match (hex_byte(h, 0), hex_byte(h, 2), hex_byte(h, 4)) {
            (Some(r), Some(g), Some(b)) => if h.len() == 8 {
                match hex_byte(h, 6) {
                    Some(a) => Some(Color { r, g, b, a }),
                    None => None,
                }
            } else {
                Some(Color { r, g, b, a: 255 })
            },
            _ => None,
        }
    }
}

fn hex_digit(c: char) -> (r: Option<u8>)
    ensures
        r == hex_value(c),
{
    if '0' <= c && c <= '9' {
        Some((c as u32 - '0' as u32) as u8)
    } else if 'a' <= c && c <= 'f' {
        Some((c as u32 - 'a' as u32 + 10) as u8)
    } else if 'A' <= c && c <= 'F' {
        Some((c as u32 - 'A' as u32 + 10) as u8)
    } else {
        None
    }
}

fn read_byte(h: &Vec<char>, k: usize) -> (r: Option<u8>)
    requires
        k + 1 < h@.len(),
    ensures
        r == hex_byte(h@, k as int),
{
    let n = h.len();
    match (hex_digit(h[k]), hex_digit(h[k + 1])) {
        (Some(hi), Some(lo)) => {
            assert(hi * 16 + lo < 256) by {
                assert(hi < 16 && lo < 16);
            }
            Some(hi * 16 + lo)
        },
        _ => None,
    }
}

impl Color {
    pub fn from_rgba(r: u8, g: u8, b: u8, a: u8) -> (c: Self)
        ensures
            c == (Color { r, g, b, a }),
    {
        Color { r, g, b, a }
    }

    pub fn from_rgb(r: u8, g: u8, b: u8) -> (c: Self)
        ensures
            c == (Color { r, g, b, a: 255 }),
    {
        Color { r, g, b, a: 255 }
    }

    /// Reads `RRGGBB` or `RRGGBBAA`, after any `0x` prefixes; the alpha of six digits is 255.
    pub fn from_hex(hex: &str) -> (r: ParseResult<Self>)
        ensures
            match hex_color(hex@) {
                Some(c) => r == Ok::<Color, ConfigError>(c),
                None => r matches Err(ConfigError::InvalidColor { .. }),
            },
    {
        let v = chars_of(hex);
        let n = v.len();
        let mut start: usize = 0;
        assert(v@.skip(0) =~= v@);
        while start < n && start + 1 < n && v[start] == '0' && v[start + 1] == 'x'
            invariant
                n == v@.len(),
                0 <= start <= v@.len(),
                strip_hex_prefix(v@) == strip_hex_prefix(v@.skip(start as int)),
            decreases v@.len() - start,
        {
            assert(v@.skip(start as int).skip(2) =~= v@.skip(start + 2));
            start += 2;
        }
        let h = sub_chars(&v, start, v.len());
        assert(h@ =~= v@.skip(start as int));
        assert(strip_hex_prefix(h@) == h@);
        let shown = string_of(&h);
        if h.len() != 6 && h.len() != 8 {
            return Err(ConfigError::invalid_color(shown.as_str(), "hex color must be 6 or 8 characters"));
        }
        let r = read_byte(&h, 0);
        let g = read_byte(&h, 2);
        let b = read_byte(&h, 4);
        match (r, g, b) {
            (Some(r), Some(g), Some(b)) => {
                if h.len() == 8 {
                    match read_byte(&h, 6) {
                        Some(a) => Ok(Color { r, g, b, a }),
                        None => Err(ConfigError::invalid_color(shown.as_str(), "invalid hex digits")),
                    }
                } else {
                    Ok(Color { r, g, b, a: 255 })
                }
            },
            _ => Err(ConfigError::invalid_color(shown.as_str(), "invalid hex digits")),
        }
    }

    /// The color as `0xAARRGGBB`.
    pub fn to_argb(&self) -> (r: u32)
        ensures
            r == self.a as u32 * 0x1000000 + self.r as u32 * 0x10000 + self.g as u32 * 0x100
                + self.b as u32,
    {
        self.a as u32 * 0x1000000 + self.r as u32 * 0x10000 + self.g as u32 * 0x100 + self.b as u32
    }

    /// The color as `0xRRGGBBAA`.
    pub fn to_rgba(&self) -> (r: u32)
        ensures
            r == self.r as u32 * 0x1000000 + self.g as u32 * 0x10000 + self.b as u32 * 0x100
                + self.a as u32,
    {
        self.r as u32 * 0x1000000 + self.g as u32 * 0x10000 + self.b as u32 * 0x100 + self.a as u32
    }
}

/// The channel value that `t` spells: an optional `+`, then decimal digits worth at most 255.
pub open spec fn byte_text(t: Seq<char>) -> Option<u8> {
    let body = if t.len() > 0 && t[0] == '+' { t.skip(1) } else { t };
    if body.len() == 0 || !all_digits(body) || digits_value(body) > 255 {
        None
    } else {
        Some(digits_value(body) as u8)
    }
}

/// The channel value that `s` spells, surrounding whitespace aside.
pub open spec fn component(s: Seq<char>) -> Option<u8> {
    byte_text(trim(s))
}

/// The color that `r, g, b` spells (the inside of `rgb(...)`), alpha 255.
pub open spec fn rgb_text(inner: Seq<char>) -> Option<Color> {
    let ps = pieces(inner, ',');
    if ps.len() != 3 {
        None
    } else {
        match (component(ps[0]), component(ps[1]), component(ps[2])) {
            (Some(r), Some(g), Some(b)) => Some(Color { r, g, b, a: 255 }),
            _ => None,
        }
    }
}

/// The color that a `0x` literal of 8 to 10 characters spells.
pub open spec fn hex_literal(s: Seq<char>) -> Option<Color> {
    if s.len() >= 8 && s.len() <= 10 && s[0] == '0' && s[1] == 'x' {
        hex_color(s)
    } else {
        None
    }
}

/// Reads one channel value, surrounding whitespace aside.
pub fn parse_component(s: &str) -> (r: Option<u8>)
    ensures
        r == component(s@),
{
    let t = trimmed(&chars_of(s));
    let n = t.len();
    let start: usize = if n > 0 && t[0] == '+' { 1 } else { 0 };
    let ghost body = t@.skip(start as int);
    proof {
        if start == 0 {
            assert(body =~= t@);
        }
        assert(body == (if t@.len() > 0 && t@[0] == '+' { t@.skip(1) } else { t@ }));
    }
    if start >= n {
        return None;
    }
    let mut acc: u32 = 0;
    let mut i: usize = start;
    while i < n
        invariant
            start <= i <= n == t@.len(),
            body == t@.skip(start as int),
            t@ == trim(s@),
            body == (if t@.len() > 0 && t@[0] == '+' { t@.skip(1) } else { t@ }),
            all_digits(body.take(i - start)),
            acc as int == digits_value(body.take(i - start)),
            acc <= 255,
        decreases n - i,
    {
        let c = t[i];
        let ghost m = i - start;
        if !('0' <= c && c <= '9') {
            assert(body[m] == c);
            assert(!all_digits(body));
            return None;
        }
        let d: u32 = (c as u32) - ('0' as u32);
        proof {
            assert(body.take(m + 1).drop_last() =~= body.take(m));
            assert(body.take(m + 1).last() == c);
            assert(all_digits(body.take(m + 1))) by {
                assert forall|k: int| 0 <= k < m + 1 implies is_digit(#[trigger] body.take(m + 1)[k]) by {
                    if k < m {
                        assert(body.take(m + 1)[k] == body.take(m)[k]);
                    }
                }
            }
        }
        if acc * 10 + d > 255 {
            proof {
                if all_digits(body) {
                    lemma_digits_value_monotone(body, m + 1);
                    assert(digits_value(body.take(m + 1)) == acc * 10 + d);
                }
            }
            return None;
        }
        acc = acc * 10 + d;
        i += 1;
    }
    assert(body.take(n - start) =~= body);
    Some(acc as u8)
}

impl Color {
    /// Reads `r, g, b` (the inside of `rgb(...)`); alpha is 255.
    pub fn from_rgb_text(inner: &str) -> (r: Option<Color>)
        ensures
            r == rgb_text(inner@),
    {
        let parts = split_on(inner, ',');
        if parts.len() != 3 {
            return None;
        }
        proof {
            assert(views(parts@)[0] == parts@[0]@);
            assert(views(parts@)[1] == parts@[1]@);
            assert(views(parts@)[2] == parts@[2]@);
        }
        match (parse_component(parts[0].as_str()), parse_component(parts[1].as_str()), parse_component(parts[2].as_str())) {
            (Some(r), Some(g), Some(b)) => Some(Color { r, g, b, a: 255 }),
            _ => None,
        }
    }

    /// Reads a `0x` color literal of 8 to 10 characters.
    pub fn from_hex_literal(s: &str) -> (r: Option<Color>)
        ensures
            r == hex_literal(s@),
    {
        let v = chars_of(s);
        if v.len() >= 8 && v.len() <= 10 && v[0] == '0' && v[1] == 'x' {
            match Color::from_hex(s) {
                Ok(c) => Some(c),
                Err(_) => None,
            }
        } else {
            None
        }
    }
}

} // verus!
