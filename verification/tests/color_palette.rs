use iridion::color::Rgb;
use iridion::palette::{slot_label, Palette, NUM_SLOTS};

#[test]
fn to_hex_spells_channels_in_order() {
    assert_eq!(Rgb::new(0x1a, 0x1c, 0x2a).to_hex(), "#1a1c2a");
    assert_eq!(Rgb::new(0x0f, 0xf0, 0x09).to_hex(), "#0ff009");
}

#[test]
fn to_hex_edges() {
    assert_eq!(Rgb::new(0, 0, 0).to_hex(), "#000000");
    assert_eq!(Rgb::new(255, 255, 255).to_hex(), "#ffffff");
    assert_eq!(Rgb::new(0xab, 0xcd, 0xef).to_hex(), "#abcdef");
}

#[test]
fn to_hex_is_seven_chars() {
    for v in [0u8, 1, 9, 10, 15, 16, 127, 128, 200, 255] {
        let h = Rgb::new(v, 255 - v, v / 2).to_hex();
        assert_eq!(h.len(), 7);
        assert!(h.starts_with('#'));
        assert!(h[1..].chars().all(|c| c.is_ascii_hexdigit() && !c.is_ascii_uppercase()));
    }
}

#[test]
fn slot_labels_are_base16_names() {
    let expected = [
        "base00", "base01", "base02", "base03", "base04", "base05", "base06", "base07", "base08", "base09", "base0A",
        "base0B", "base0C", "base0D", "base0E", "base0F",
    ];
    for (slot, name) in expected.iter().enumerate() {
        assert_eq!(slot_label(slot), *name);
    }
}

fn sample_palette() -> Palette {
    let mut colors = [Rgb::new(0, 0, 0); NUM_SLOTS];
    for (i, c) in colors.iter_mut().enumerate() {
        let v = (i as u8) * 16;
        *c = Rgb::new(v, v + 1, 255 - v);
    }
    Palette::new(colors)
}

#[test]
fn palette_color_reads_slot() {
    let p = sample_palette();
    assert_eq!(p.color(0), Rgb::new(0, 1, 255));
    assert_eq!(p.color(15), Rgb::new(240, 241, 15));
}

#[test]
fn json_entries_pair_names_with_hex() {
    let p = sample_palette();
    let entries = p.json_entries();
    assert_eq!(entries.len(), NUM_SLOTS);
    assert_eq!(entries[0], ("base00".to_string(), "#0001ff".to_string()));
    assert_eq!(entries[10], ("base0A".to_string(), "#a0a15f".to_string()));
    assert_eq!(entries[15], ("base0F".to_string(), "#f0f10f".to_string()));
}

#[test]
fn to_json_string_is_pretty_object_of_sixteen_colors() {
    let p = sample_palette();
    let text = p.to_json_string().expect("serializes");
    let mut expected = String::from("{\n");
    for i in 0..16u8 {
        let v = i * 16;
        expected.push_str(&format!("  \"base0{:X}\": \"#{:02x}{:02x}{:02x}\"", i, v, v + 1, 255 - v));
        expected.push_str(if i < 15 { ",\n" } else { "\n" });
    }
    expected.push('}');
    assert_eq!(text, expected);
}

#[test]
fn to_json_string_round_trips_through_a_json_reader() {
    let p = sample_palette();
    let text = p.to_json_string().unwrap();
    let value: serde_json::Value = serde_json::from_str(&text).unwrap();
    let object = value.as_object().unwrap();
    assert_eq!(object.len(), 16);
    assert_eq!(object["base07"], serde_json::Value::String("#70718f".to_string()));
}
