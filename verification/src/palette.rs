use vstd::prelude::*;

use crate::color::{rgb_hex, Rgb};

verus! {

/// Number of colours in a base16 scheme.
pub const NUM_SLOTS: usize = 16;

/// The uppercase hexadecimal digit of a slot number in `0..16`.
pub open spec fn upper_hex_digit(n: int) -> char
    recommends
        0 <= n < 16,
{
    seq!['0', '1', '2', '3', '4', '5', '6', '7', '8', '9', 'A', 'B', 'C', 'D', 'E', 'F'][n]
}

/// The base16 name of a slot: `base00` .. `base0F`.
pub open spec fn slot_name(slot: int) -> Seq<char> {
    seq!['b', 'a', 's', 'e', '0', upper_hex_digit(slot)]
}

/// The (name, hex colour) pairs of a palette, in slot order.
pub open spec fn palette_entries(colors: Seq<Rgb>) -> Seq<(Seq<char>, Seq<char>)> {
    Seq::new(colors.len(), |i: int| (slot_name(i), rgb_hex(colors[i])))
}

/// Name for the text that `serde_json::to_string_pretty` produces for a JSON
/// object whose members are the given (key, string value) pairs.
pub uninterp spec fn pretty_json_object(entries: Seq<(Seq<char>, Seq<char>)>) -> Seq<char>;

#[verifier::external_type_specification]
#[verifier::external_body]
pub struct ExJsonError(serde_json::Error);

/// `serde_json::to_string_pretty` on a `serde_json::Map` whose members are
/// the given pairs, each value a JSON string.
/// Claimed: the call succeeds, and its text is `pretty_json_object` of the
/// pairs. The crate documents failure only for a `Serialize` impl that fails
/// or for a map with non-string keys; here every key is a `String`, every
/// value a `Value::String`, and the writer is the in-memory `Vec<u8>` of
/// `to_vec_pretty`, whose writes do not fail.
#[verifier::external_body]
fn json_pretty_object(entries: &Vec<(String, String)>) -> (res: Result<String, serde_json::Error>)
    ensures
        res is Ok,
        res matches Ok(text) ==> text@ == pretty_json_object(entries.deep_view()),
{
    let map: serde_json::Map<String, serde_json::Value> = entries
        .iter()
        .map(|(key, value)| (key.clone(), serde_json::Value::String(value.clone())))
        .collect();
    serde_json::to_string_pretty(&map)
}

/// Why a palette could not be rendered.
#[derive(Clone, Copy, Debug, PartialEq, Eq, Structural)]
pub enum PaletteError {
    /// The JSON serializer refused the palette.
    Serialize,
}

/// The base16 name of a slot.
pub fn slot_label(slot: usize) -> (label: &'static str)
    requires
        slot < NUM_SLOTS,
    ensures
        label@ == slot_name(slot as int),
{
    proof {
        reveal_strlit("base00");
        reveal_strlit("base01");
        reveal_strlit("base02");
        reveal_strlit("base03");
        reveal_strlit("base04");
        reveal_strlit("base05");
        reveal_strlit("base06");
        reveal_strlit("base07");
        reveal_strlit("base08");
        reveal_strlit("base09");
        reveal_strlit("base0A");
        reveal_strlit("base0B");
        reveal_strlit("base0C");
        reveal_strlit("base0D");
        reveal_strlit("base0E");
        reveal_strlit("base0F");
    }
    match slot {
        0 => "base00",
        1 => "base01",
        2 => "base02",
        3 => "base03",
        4 => "base04",
        5 => "base05",
        6 => "base06",
        7 => "base07",
        8 => "base08",
        9 => "base09",
        10 => "base0A",
        11 => "base0B",
        12 => "base0C",
        13 => "base0D",
        14 => "base0E",
        _ => "base0F",
    }
}

/// Sixteen 8-bit colours, one per base16 slot.
pub struct Palette {
    colors: [Rgb; NUM_SLOTS],
}

impl View for Palette {
    type V = Seq<Rgb>;

    closed spec fn view(&self) -> Seq<Rgb> {
        self.colors@
    }
}

/// Every palette has one colour per base16 slot.
pub proof fn lemma_palette_has_sixteen_colors(p: &Palette)
    ensures
        p@.len() == NUM_SLOTS,
{
}

impl Palette {
    pub fn new(colors: [Rgb; NUM_SLOTS]) -> (p: Palette)
        ensures
            p@ == colors@,
    {
        Palette { colors }
    }

    /// The colour of a slot.
    pub fn color(&self, slot: usize) -> (c: Rgb)
        requires
            slot < NUM_SLOTS,
        ensures
            self@.len() == NUM_SLOTS,
            c == self@[slot as int],
    {
        self.colors[slot]
    }

    /// The (slot name, hex colour) pairs that the JSON object holds, in slot
    /// order.
    pub fn json_entries(&self) -> (entries: Vec<(String, String)>)
        ensures
            self@.len() == NUM_SLOTS,
            entries@.len() == NUM_SLOTS,
            entries.deep_view() == palette_entries(self@),
    {
        let mut entries: Vec<(String, String)> = Vec::new();
        for slot in 0..NUM_SLOTS
            invariant
                self@.len() == NUM_SLOTS,
                entries.len() == slot,
                forall|i: int|
                    0 <= i < slot ==> (#[trigger] entries.deep_view()[i]) == palette_entries(self@)[i],
        {
            let label = slot_label(slot);
            let name = String::from_str(label);
            let hex = self.colors[slot].to_hex();
            let ghost before = entries.deep_view();
            entries.push((name, hex));
            proof {
                assert(entries.deep_view() =~= before.push((slot_name(slot as int), rgb_hex(self@[slot as int]))));
            }
        }
        assert(entries.deep_view() =~= palette_entries(self@));
        entries
    }

    /// The palette as a pretty-printed JSON object from slot names to hex
    /// colours.
    pub fn to_json_string(&self) -> (res: Result<String, PaletteError>)
        ensures
            self@.len() == NUM_SLOTS,
            palette_entries(self@).len() == NUM_SLOTS,
            res matches Ok(text) && text@ == pretty_json_object(palette_entries(self@)),
    {
        let entries = self.json_entries();
        match json_pretty_object(&entries) {
            Ok(text) => Ok(text),
            Err(_) => Err(PaletteError::Serialize),
        }
    }
}

} // verus!
