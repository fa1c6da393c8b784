use vstd::prelude::*;

verus! {

/// The lowercase hexadecimal digit of a value in `0..16`.
pub open spec fn hex_digit(n: u8) -> char
    recommends
        n < 16,
{
    seq!['0', '1', '2', '3', '4', '5', '6', '7', '8', '9', 'a', 'b', 'c', 'd', 'e', 'f'][n as int]
}

/// Lowercase hexadecimal text of a byte string: two digits per byte, the
/// high nibble first.
pub open spec fn hex_lower(bytes: Seq<u8>) -> Seq<char>
    decreases bytes.len(),
{
    if bytes.len() == 0 {
        Seq::empty()
    } else {
        let last = bytes.last();
        hex_lower(bytes.drop_last()) + seq![hex_digit(last / 16), hex_digit(last % 16)]
    }
}

/// `hex::encode` on a byte slice.
/// Claimed: the result is two lowercase hex digits per input byte, high
/// nibble first, in input order (the crate's `BytesToHexChars` iterator over
/// its `HEX_CHARS_LOWER` table).
#[verifier::external_body]
fn hex_encode(bytes: &[u8]) -> (text: String)
    ensures
        text@ == hex_lower(bytes@),
{
    hex::encode(bytes)
}

/// An 8-bit sRGB colour.
#[derive(Clone, Copy, Debug, PartialEq, Eq, Structural)]
pub struct Rgb {
    pub r: u8,
    pub g: u8,
    pub b: u8,
}

/// The colour in `#rrggbb` notation, lowercase.
pub open spec fn rgb_hex(c: Rgb) -> Seq<char> {
    seq!['#'] + hex_lower(seq![c.r, c.g, c.b])
}

impl Rgb {
    pub fn new(r: u8, g: u8, b: u8) -> (c: Rgb)
        ensures
            c == (Rgb { r, g, b }),
    {
        Rgb { r, g, b }
    }

    /// The colour as `#` and six lowercase hex digits, red first.
    pub fn to_hex(&self) -> (text: String)
        ensures
            text@ == rgb_hex(*self),
    {
        let bytes: Vec<u8> = vec![self.r, self.g, self.b];
        proof {
            assert(bytes@ =~= seq![self.r, self.g, self.b]);
            reveal_strlit("#");
        }
        let digits = hex_encode(bytes.as_slice());
        let mut text = String::from_str("#");
        text.append(digits.as_str());
        text
    }
}

/// A `#` and six lowercase hex digits that spell the three channels.
pub proof fn lemma_rgb_hex_shape(c: Rgb)
    ensures
        rgb_hex(c).len() == 7,
        rgb_hex(c) == seq![
            '#',
            hex_digit(c.r / 16), hex_digit(c.r % 16),
            hex_digit(c.g / 16), hex_digit(c.g % 16),
            hex_digit(c.b / 16), hex_digit(c.b % 16),
        ],
{
    let s = seq![c.r, c.g, c.b];
    assert(s.drop_last() =~= seq![c.r, c.g]);
    assert(s.drop_last().drop_last() =~= seq![c.r]);
    assert(s.drop_last().drop_last().drop_last() =~= Seq::<u8>::empty());
    reveal_with_fuel(hex_lower, 4);
    assert(rgb_hex(c) =~= seq![
        '#',
        hex_digit(c.r / 16), hex_digit(c.r % 16),
        hex_digit(c.g / 16), hex_digit(c.g % 16),
        hex_digit(c.b / 16), hex_digit(c.b % 16),
    ]);
}

} // verus!
