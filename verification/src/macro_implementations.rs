use vstd::prelude::*;

use crate::ast::{Primary, SpecPrimary, Text};
use crate::frontend_types::Span;
use crate::macros::{misplaced, CarawayMacro};
use vstd::string::{StrSliceExecFns, StringSliceAdditionalSpecFns};
use vstd::utf8::{encode_utf8, is_char_boundary};

verus! {

/// A character with the Unicode `White_Space` property, which `char::is_whitespace`
/// tests.
pub open spec fn is_white_space(c: char) -> bool {
    ||| '\u{9}' <= c <= '\u{d}'
    ||| c == ' '
    ||| c == '\u{85}'
    ||| c == '\u{a0}'
    ||| c == '\u{1680}'
    ||| '\u{2000}' <= c <= '\u{200a}'
    ||| c == '\u{2028}'
    ||| c == '\u{2029}'
    ||| c == '\u{202f}'
    ||| c == '\u{205f}'
    ||| c == '\u{3000}'
}

pub open spec fn trim_start(s: Text) -> Text
    decreases s.len(),
{
    if s.len() > 0 && is_white_space(s[0]) {
        trim_start(s.drop_first())
    } else {
        s
    }
}

pub open spec fn trim_end(s: Text) -> Text
    decreases s.len(),
{
    if s.len() > 0 && is_white_space(s.last()) {
        trim_end(s.drop_last())
    } else {
        s
    }
}

/// `s` without white space at either end, as `str::trim` gives it.
pub open spec fn trim(s: Text) -> Text {
    trim_end(trim_start(s))
}

/// The value of a hexadecimal digit byte, or -1.
pub open spec fn hex_digit(x: u8) -> int {
    if 48 <= x <= 57 {
        x - 48
    } else if 97 <= x <= 102 {
        x - 87
    } else if 65 <= x <= 70 {
        x - 55
    } else {
        -1
    }
}

/// The bytes of the hexadecimal digits `0123456789abcdef`, in order of value.
pub open spec fn lower_hex_digits() -> Seq<u8> {
    seq![48u8, 49u8, 50u8, 51u8, 52u8, 53u8, 54u8, 55u8, 56u8, 57u8, 97u8, 98u8, 99u8, 100u8, 101u8, 102u8]
}

/// The bytes of the hexadecimal digits `0123456789ABCDEF`, in order of value.
pub open spec fn upper_hex_digits() -> Seq<u8> {
    seq![48u8, 49u8, 50u8, 51u8, 52u8, 53u8, 54u8, 55u8, 56u8, 57u8, 65u8, 66u8, 67u8, 68u8, 69u8, 70u8]
}

/// A hexadecimal digit is worth its place among `0123456789abcdef`, in either
/// case, as `u8::from_str_radix` reads it in base 16; no other byte is a digit.
pub proof fn lemma_hex_digit_values()
    ensures
        forall|i: int| 0 <= i < 16 ==> hex_digit(#[trigger] lower_hex_digits()[i]) == i,
        forall|i: int| 0 <= i < 16 ==> hex_digit(#[trigger] upper_hex_digits()[i]) == i,
        forall|x: u8| #[trigger] hex_digit(x) >= 0 ==> lower_hex_digits().contains(x) || upper_hex_digits().contains(x),
{
    let lo = lower_hex_digits();
    let up = upper_hex_digits();
    assert forall|i: int| 0 <= i < 16 implies hex_digit(#[trigger] lo[i]) == i && hex_digit(up[i]) == i by {
        if i == 0 {
        } else if i == 1 {
        } else if i == 2 {
        } else if i == 3 {
        } else if i == 4 {
        } else if i == 5 {
        } else if i == 6 {
        } else if i == 7 {
        } else if i == 8 {
        } else if i == 9 {
        } else if i == 10 {
        } else if i == 11 {
        } else if i == 12 {
        } else if i == 13 {
        } else if i == 14 {
        } else if i == 15 {
        }
    }
    assert forall|i: int| 0 <= i < 16 implies hex_digit(#[trigger] up[i]) == i by {
        assert(hex_digit(lo[i]) == i && hex_digit(up[i]) == i);
    }
    assert forall|x: u8| #[trigger] hex_digit(x) >= 0 implies lo.contains(x) || up.contains(x) by {
        if 48 <= x <= 57 {
            assert(lo[x - 48] == x);
        } else if 97 <= x <= 102 {
            assert(lo[x - 87] == x);
        } else {
            assert(up[x - 55] == x);
        }
    }
}

/// What `u8::from_str_radix` gives in base 16 for two bytes: a `+` and a digit,
/// or two digits.
pub open spec fn hex_pair(a: u8, b: u8) -> Option<u8> {
    if a == 43 {
        if hex_digit(b) >= 0 {
            Some(hex_digit(b) as u8)
        } else {
            None
        }
    } else if hex_digit(a) >= 0 && hex_digit(b) >= 0 {
        Some((16 * hex_digit(a) + hex_digit(b)) as u8)
    } else {
        None
    }
}

/// The red, green and blue parts of a colour written in six bytes, or what is
/// wrong with it.
pub open spec fn hex_color(b: Seq<u8>) -> Result<(u8, u8, u8), Text> {
    if b.len() != 6 {
        Err("Hex color must be exactly 6 characters long."@)
    } else {
        match hex_pair(b[0], b[1]) {
            None => Err("Invalid hex for Red"@),
            Some(r) => match hex_pair(b[2], b[3]) {
                None => Err("Invalid hex for Green"@),
                Some(g) => match hex_pair(b[4], b[5]) {
                    None => Err("Invalid hex for Blue"@),
                    Some(bl) => Ok((r, g, bl)),
                },
            },
        }
    }
}

/// The decimal digits of `v`.
pub open spec fn decimal(v: nat) -> Text
    decreases v,
{
    if v < 10 {
        seq![('0' as u32 + v) as char]
    } else {
        decimal(v / 10) + seq![('0' as u32 + v % 10) as char]
    }
}

/// What `@hex(content)` stands for as an expression: the list of the red, green
/// and blue numbers of the colour.
pub open spec fn hex_expansion(content: Text, span: Span) -> Result<SpecPrimary, Text> {
    match hex_color(encode_utf8(trim(content))) {
        Ok((r, g, b)) => Ok(
            SpecPrimary::List(
                seq![
                    SpecPrimary::Number(decimal(r as nat), span),
                    SpecPrimary::Number(decimal(g as nat), span),
                    SpecPrimary::Number(decimal(b as nat), span),
                ],
                span,
            ),
        ),
        Err(m) => Err(m),
    }
}

/// `content` without white space at either end.
fn trim_text(content: &str) -> (r: String)
    ensures
        r@ == trim(content@),
{
    let n = content.unicode_len();
    let mut a: usize = 0;
    assert(content@.skip(0) =~= content@);
    while a < n && is_space(content.get_char(a))
        invariant
            n == content@.len(),
            a <= n,
            trim_start(content@) == trim_start(content@.skip(a as int)),
        decreases n - a,
    {
        assert(content@.skip(a as int).drop_first() =~= content@.skip(a + 1));
        a = a + 1;
    }
    let mut b: usize = n;
    assert(content@.skip(a as int) =~= content@.subrange(a as int, n as int));
    while b > a && is_space(content.get_char(b - 1))
        invariant
            n == content@.len(),
            a <= b <= n,
            trim(content@) == trim_end(content@.subrange(a as int, b as int)),
        decreases b - a,
    {
        assert(content@.subrange(a as int, b as int).drop_last() =~= content@.subrange(a as int, b - 1));
        b = b - 1;
    }
    content.substring_char(a, b).to_owned()
}

fn is_space(c: char) -> (r: bool)
    ensures
        r == is_white_space(c),
{
    ('\u{9}' <= c && c <= '\u{d}') || c == ' ' || c == '\u{85}' || c == '\u{a0}' || c == '\u{1680}' || ('\u{2000}' <= c
        && c <= '\u{200a}') || c == '\u{2028}' || c == '\u{2029}' || c == '\u{202f}' || c == '\u{205f}' || c
        == '\u{3000}'
}

fn hex_value(x: u8) -> (r: Option<u8>)
    ensures
        r is Some <==> hex_digit(x) >= 0,
        r matches Some(v) ==> v == hex_digit(x),
{
    if 48 <= x && x <= 57 {
        Some(x - 48)
    } else if 97 <= x && x <= 102 {
        Some(x - 87)
    } else if 65 <= x && x <= 70 {
        Some(x - 55)
    } else {
        None
    }
}

fn parse_hex_pair(a: u8, b: u8) -> (r: Option<u8>)
    ensures
        r == hex_pair(a, b),
{
    if a == 43 {
        hex_value(b)
    } else {
        match (hex_value(a), hex_value(b)) {
            (Some(h), Some(l)) => Some(16 * h + l),
            _ => None,
        }
    }
}

/// The decimal digits of `v`.
fn decimal_text(v: u8) -> (r: String)
    ensures
        r@ == decimal(v as nat),
    decreases v,
{
    let d = v % 10;
    let digit = match d {
        0 => "0",
        1 => "1",
        2 => "2",
        3 => "3",
        4 => "4",
        5 => "5",
        6 => "6",
        7 => "7",
        8 => "8",
        _ => "9",
    };
    proof {
        reveal_strlit("0");
        reveal_strlit("1");
        reveal_strlit("2");
        reveal_strlit("3");
        reveal_strlit("4");
        reveal_strlit("5");
        reveal_strlit("6");
        reveal_strlit("7");
        reveal_strlit("8");
        reveal_strlit("9");
    }
    assert(digit@ =~= seq![('0' as u32 + d) as char]);
    if v < 10 {
        digit.to_owned()
    } else {
        let mut r = decimal_text(v / 10);
        r.append(digit);
        r
    }
}

/// `@hex(rrggbb)`: a colour, which stands for the list of its red, green and blue
/// numbers.
pub struct HexColorMacro;

impl CarawayMacro for HexColorMacro {
    open spec fn macro_name(&self) -> Text {
        "hex"@
    }

    /// A colour of six bytes is cut into three pairs of bytes, which must each
    /// begin a character.
    open spec fn expands_primary(&self, content: Text) -> bool {
        let b = encode_utf8(trim(content));
        b.len() == 6 ==> is_char_boundary(b, 2) && is_char_boundary(b, 4)
    }

    fn name(&self) -> (r: &'static str) {
        "hex"
    }

    fn expand_primary(&self, content: &str, span: Span) -> (r: Result<Primary, String>)
        ensures
            match hex_expansion(content@, span) {
                Ok(p) => r matches Ok(q) && q@ == p,
                Err(m) => r matches Err(e) && e@ == m,
            },
    {
        let trimmed = trim_text(content);
        let b = trimmed.as_str().as_bytes();
        if b.len() != 6 {
            return Err("Hex color must be exactly 6 characters long.".to_owned());
        }
        let r = match parse_hex_pair(b[0], b[1]) {
            Some(v) => v,
            None => {
                return Err("Invalid hex for Red".to_owned());
            },
        };
        let g = match parse_hex_pair(b[2], b[3]) {
            Some(v) => v,
            None => {
                return Err("Invalid hex for Green".to_owned());
            },
        };
        let bl = match parse_hex_pair(b[4], b[5]) {
            Some(v) => v,
            None => {
                return Err("Invalid hex for Blue".to_owned());
            },
        };
        let mut rgb_list: Vec<Primary> = Vec::new();
        rgb_list.push(Primary::Number(decimal_text(r), span));
        rgb_list.push(Primary::Number(decimal_text(g), span));
        rgb_list.push(Primary::Number(decimal_text(bl), span));
        proof {
            crate::ast::lemma_primaries_view(rgb_list@);
        }
        let list = Primary::List(rgb_list, span);
        assert(crate::ast::primaries_view(rgb_list@) =~= seq![
            SpecPrimary::Number(decimal(r as nat), span),
            SpecPrimary::Number(decimal(g as nat), span),
            SpecPrimary::Number(decimal(bl as nat), span),
        ]);
        Ok(list)
    }
}

} // verus!
