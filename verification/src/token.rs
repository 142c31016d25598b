//! Session tokens: unguessable 128-bit values with a canonical textual
//! encoding of thirty-six characters — thirty-two lowercase hexadecimal
//! digits in groups of eight, four, four, four and twelve, separated by
//! hyphens, most significant digit first.
//!
//! Fresh tokens come from the uuid crate's random generator; rendering goes
//! through its hyphenated formatter, whose output `spec_token_text` states
//! exactly. Parsing accepts precisely that canonical form and is verified
//! against `spec_parse_token`; `lemma_token_round_trip` proves that a
//! rendered token parses back to itself.

use vstd::prelude::*;

verus! {

/// An unguessable, fixed-width random value identifying a live session.
#[derive(PartialEq, Eq, Structural, Clone, Copy, Hash, Debug)]
pub struct Token(pub u128);

/// The canonical text places hyphens after the eighth, twelfth, sixteenth
/// and twentieth digit.
pub open spec fn is_hyphen_pos(i: int) -> bool {
    i == 8 || i == 13 || i == 18 || i == 23
}

/// How many of the first `i` character positions are digits.
pub open spec fn digits_before(i: int) -> int {
    if i <= 8 {
        i
    } else if i <= 13 {
        i - 1
    } else if i <= 18 {
        i - 2
    } else if i <= 23 {
        i - 3
    } else {
        i - 4
    }
}

/// The character position of digit `j`.
pub open spec fn digit_pos(j: int) -> int {
    if j < 8 {
        j
    } else if j < 12 {
        j + 1
    } else if j < 16 {
        j + 2
    } else if j < 20 {
        j + 3
    } else {
        j + 4
    }
}

/// Digit `j` of a token value, most significant first.
pub open spec fn nibble(v: u128, j: int) -> u128 {
    (v >> (((31 - j) * 4) as u128)) & 0xf
}

/// The lowercase hexadecimal character for a digit value.
pub open spec fn hex_digit_char(d: int) -> char {
    if d == 0 {
        '0'
    } else if d == 1 {
        '1'
    } else if d == 2 {
        '2'
    } else if d == 3 {
        '3'
    } else if d == 4 {
        '4'
    } else if d == 5 {
        '5'
    } else if d == 6 {
        '6'
    } else if d == 7 {
        '7'
    } else if d == 8 {
        '8'
    } else if d == 9 {
        '9'
    } else if d == 10 {
        'a'
    } else if d == 11 {
        'b'
    } else if d == 12 {
        'c'
    } else if d == 13 {
        'd'
    } else if d == 14 {
        'e'
    } else {
        'f'
    }
}

/// The digit value of a character, or sixteen where it is not a lowercase
/// hexadecimal digit.
pub open spec fn hex_val(c: char) -> int {
    let u = c as u32;
    if 48 <= u <= 57 {
        u - 48
    } else if 97 <= u <= 102 {
        u - 87
    } else {
        16
    }
}

/// The canonical text of a token value.
pub open spec fn spec_token_text(v: u128) -> Seq<char> {
    Seq::new(
        36,
        |i: int|
            if is_hyphen_pos(i) {
                '-'
            } else {
                hex_digit_char(nibble(v, digits_before(i)) as int)
            },
    )
}

/// Whether a text has the canonical shape: thirty-six characters, hyphens
/// in their places, lowercase hexadecimal digits everywhere else.
pub open spec fn token_shape_ok(s: Seq<char>) -> bool {
    &&& s.len() == 36
    &&& forall|i: int| 0 <= i < 36 && is_hyphen_pos(i) ==> s[i] == '-'
    &&& forall|i: int| 0 <= i < 36 && !is_hyphen_pos(i) ==> hex_val(#[trigger] s[i]) < 16
}

/// The value of the first `k` digits of a canonical text, most significant
/// digit first.
pub open spec fn text_value(s: Seq<char>, k: int) -> u128
    decreases k,
{
    if k <= 0 {
        0
    } else {
        (text_value(s, k - 1) << 4) | (hex_val(s[digit_pos(k - 1)]) as u128)
    }
}

/// What parsing a text returns: the digits' value where the text has the
/// canonical shape, nothing otherwise.
pub open spec fn spec_parse_token(s: Seq<char>) -> Option<u128> {
    if token_shape_ok(s) {
        Some(text_value(s, 32))
    } else {
        None
    }
}

/// The text was not the canonical rendering of any token.
#[derive(PartialEq, Eq, Structural, Clone, Copy, Debug)]
pub enum FormatError {
    Malformed,
}

/// The hexadecimal character of a digit value reads back as that value.
proof fn lemma_hex_digit_char_val(d: int)
    requires
        0 <= d < 16,
    ensures
        hex_val(hex_digit_char(d)) == d,
{
}

/// The value of the first `k + 1` digits of a token's text extends the
/// value of the first `k` by the token's digit `k`.
proof fn lemma_prefix_shift(v: u128, k: int)
    requires
        0 <= k < 32,
    ensures
        text_value(spec_token_text(v), k + 1) == (text_value(spec_token_text(v), k) << 4) | nibble(
            v,
            k,
        ),
{
    let s = spec_token_text(v);
    assert(!is_hyphen_pos(digit_pos(k)));
    assert(digits_before(digit_pos(k)) == k);
    let sh = ((31 - k) * 4) as u128;
    assert((v >> sh) & 0xf < 16) by (bit_vector);
    assert(nibble(v, k) == (v >> sh) & 0xf);
    lemma_hex_digit_char_val(nibble(v, k) as int);
    assert(s[digit_pos(k)] == hex_digit_char(nibble(v, k) as int));
    assert(hex_val(s[digit_pos(k)]) as u128 == nibble(v, k));
}

/// The first `k` digits of a token's text carry the token's top `4 * k`
/// bits.
proof fn lemma_text_value_prefix(v: u128, k: int)
    requires
        0 <= k <= 32,
    ensures
        k == 0 ==> text_value(spec_token_text(v), k) == 0,
        k > 0 ==> text_value(spec_token_text(v), k) == v >> (((32 - k) * 4) as u128),
    decreases k,
{
    if k > 0 {
        lemma_text_value_prefix(v, k - 1);
        lemma_prefix_shift(v, k - 1);
        let sh = ((32 - k) * 4) as u128;
        if k == 1 {
            assert((0u128 << 4) | ((v >> 124) & 0xf) == v >> 124) by (bit_vector);
        } else {
            assert(sh <= 120);
            assert(forall|x: u128, y: u128|
                x <= 120 && y == ((x + 4) as u128) ==> ((v >> y) << 4) | ((v >> x) & 0xf) == v
                    >> x) by (bit_vector);
            assert((((32 - (k - 1)) * 4) as u128) == ((sh + 4) as u128));
        }
    }
}

/// A token's canonical text has the canonical shape.
proof fn lemma_token_text_shape(v: u128)
    ensures
        token_shape_ok(spec_token_text(v)),
{
    let s = spec_token_text(v);
    assert forall|i: int| 0 <= i < 36 && !is_hyphen_pos(i) implies hex_val(#[trigger] s[i])
        < 16 by {
        let sh = ((31 - digits_before(i)) * 4) as u128;
        assert((v >> sh) & 0xf < 16) by (bit_vector);
        assert(nibble(v, digits_before(i)) == (v >> sh) & 0xf);
        lemma_hex_digit_char_val(nibble(v, digits_before(i)) as int);
    }
}

/// Rendering a token and parsing the text back returns exactly the token:
/// the canonical encoding round-trips.
pub proof fn lemma_token_round_trip(v: u128)
    ensures
        spec_parse_token(spec_token_text(v)) == Some(v),
{
    lemma_token_text_shape(v);
    lemma_text_value_prefix(v, 32);
    assert(v >> 0 == v) by (bit_vector);
}

/// A lowercase hexadecimal digit character is the rendering of its value.
proof fn lemma_hex_val_char(c: char)
    requires
        hex_val(c) < 16,
    ensures
        hex_digit_char(hex_val(c)) == c,
{
    assert(hex_digit_char(hex_val(c)) as u32 == c as u32);
}

/// Digit `j` of the value accumulated from the first `k` digits of a text
/// whose digits are all hexadecimal.
proof fn lemma_nibble_of_value(s: Seq<char>, k: int, j: int)
    requires
        0 <= j < k <= 32,
        forall|x: int| 0 <= x < k ==> hex_val(#[trigger] s[digit_pos(x)]) < 16,
    ensures
        (text_value(s, k) >> (((k - 1 - j) * 4) as u128)) & 0xf == hex_val(s[digit_pos(j)]),
    decreases k,
{
    let w = text_value(s, k - 1);
    let d = hex_val(s[digit_pos(k - 1)]) as u128;
    assert(text_value(s, k) == (w << 4) | d);
    if j == k - 1 {
        assert(d < 16 ==> (((w << 4) | d) >> 0) & 0xf == d) by (bit_vector);
    } else {
        lemma_nibble_of_value(s, k - 1, j);
        let sh = ((k - 1 - j) * 4) as u128;
        assert(4 <= sh <= 124);
        assert(d < 16 && 4 <= sh <= 124 ==> (((w << 4) | d) >> sh) & 0xf == (w >> ((sh - 4)
            as u128)) & 0xf) by (bit_vector);
        assert((((k - 1 - 1 - j) * 4) as u128) == ((sh - 4) as u128));
    }
}

/// Only canonical text parses: a text with the canonical shape is exactly
/// the rendering of the value the parser returns for it, so parsing accepts
/// nothing but renderings and is one-to-one with them.
pub proof fn lemma_parse_canonical(s: Seq<char>)
    requires
        token_shape_ok(s),
    ensures
        spec_parse_token(s) == Some(text_value(s, 32)),
        s == spec_token_text(text_value(s, 32)),
{
    let v = text_value(s, 32);
    assert(forall|x: int| 0 <= x < 32 ==> hex_val(#[trigger] s[digit_pos(x)]) < 16) by {
        assert forall|x: int| 0 <= x < 32 implies hex_val(#[trigger] s[digit_pos(x)]) < 16 by {
            assert(!is_hyphen_pos(digit_pos(x)));
            assert(0 <= digit_pos(x) < 36);
        }
    }
    assert forall|i: int| 0 <= i < 36 implies s[i] == spec_token_text(v)[i] by {
        if !is_hyphen_pos(i) {
            let j = digits_before(i);
            assert(digit_pos(j) == i);
            lemma_nibble_of_value(s, 32, j);
            assert(nibble(v, j) == hex_val(s[i]));
            lemma_hex_val_char(s[i]);
        }
    }
    assert(s =~= spec_token_text(v));
}

/// Relies on `uuid::Uuid::new_v4`: a fresh value from the operating
/// system's random source, with the four version bits set to four and the
/// two variant bits set to two, as its construction masks them in.
#[verifier::external_body]
fn fresh_token_value() -> (r: u128)
    ensures
        (r >> 76) & 0xf == 4,
        (r >> 62) & 3 == 2,
{
    uuid::Uuid::new_v4().as_u128()
}

/// Relies on uuid's hyphenated formatter: `Uuid::from_u128(v)` keeps the
/// value big-endian, and `to_string` renders it as thirty-two lowercase
/// hexadecimal digits, most significant first, with hyphens after the
/// eighth, twelfth, sixteenth and twentieth.
#[verifier::external_body]
fn render_token_value(v: u128) -> (r: String)
    ensures
        r@ == spec_token_text(v),
{
    uuid::Uuid::from_u128(v).to_string()
}

impl Token {
    /// Draws a fresh random token; its version and variant bits are fixed,
    /// the rest is unguessable.
    pub fn generate() -> (t: Token)
        ensures
            (t.0 >> 76) & 0xf == 4,
            (t.0 >> 62) & 3 == 2,
    {
        Token(fresh_token_value())
    }

    /// The canonical text of this token.
    pub fn to_text(&self) -> (r: String)
        ensures
            r@ == spec_token_text(self.0),
    {
        render_token_value(self.0)
    }

    /// Parses the canonical textual encoding, rejecting any other text as
    /// malformed.
    pub fn parse(s: &str) -> (r: Result<Token, FormatError>)
        ensures
            match r {
                Ok(t) => spec_parse_token(s@) == Some(t.0),
                Err(_) => spec_parse_token(s@) is None,
            },
    {
        if s.unicode_len() != 36 {
            return Err(FormatError::Malformed);
        }
        let mut w: u128 = 0;
        let mut i: usize = 0;
        let mut k: usize = 0;
        while i < 36
            invariant
                s@.len() == 36,
                0 <= i <= 36,
                k == digits_before(i as int),
                w == text_value(s@, k as int),
                forall|p: int| 0 <= p < i && is_hyphen_pos(p) ==> s@[p] == '-',
                forall|p: int| 0 <= p < i && !is_hyphen_pos(p) ==> hex_val(#[trigger] s@[p]) < 16,
            decreases 36 - i,
        {
            let c = s.get_char(i);
            if i == 8 || i == 13 || i == 18 || i == 23 {
                if c != '-' {
                    return Err(FormatError::Malformed);
                }
            } else {
                let u = c as u32;
                let d: u32 = if 48 <= u && u <= 57 {
                    u - 48
                } else if 97 <= u && u <= 102 {
                    u - 87
                } else {
                    return Err(FormatError::Malformed);
                };
                proof {
                    assert(digit_pos(k as int) == i as int);
                    assert(hex_val(s@[i as int]) == d);
                }
                w = (w << 4) | (d as u128);
                k += 1;
            }
            i += 1;
        }
        Ok(Token(w))
    }
}

} // verus!
