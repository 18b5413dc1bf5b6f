use chunk_palette::codec::DecodeError;
use chunk_palette::container::PalettedContainer;
use chunk_palette::palette::{Palette, PaletteKind, PalettedContainerType};

#[test]
fn empty_buffer_is_truncated() {
    let buf: Vec<u8> = Vec::new();
    let r = PalettedContainer::read_with_type(&buf, 0, &PalettedContainerType::BlockStates);
    assert_eq!(r.unwrap_err(), DecodeError::TruncatedBuffer);
}

#[test]
fn buffer_ending_mid_palette_is_truncated() {
    // bits_per_entry 0, then nothing: the single-value palette VarInt is missing
    let buf: Vec<u8> = vec![0];
    let r = PalettedContainer::read_with_type(&buf, 0, &PalettedContainerType::BlockStates);
    assert_eq!(r.unwrap_err(), DecodeError::TruncatedBuffer);
}

#[test]
fn six_byte_varint_is_malformed() {
    // bits_per_entry 0, then a palette VarInt with too many continuation bytes
    let buf: Vec<u8> = vec![0, 0x80, 0x80, 0x80, 0x80, 0x80, 0x01];
    let r = PalettedContainer::read_with_type(&buf, 0, &PalettedContainerType::BlockStates);
    assert_eq!(r.unwrap_err(), DecodeError::MalformedVarInt);
}

#[test]
fn continuation_past_end_is_malformed() {
    // bits_per_entry 0, then a VarInt that signals continuation and stops
    let buf: Vec<u8> = vec![0, 0x80];
    let r = PalettedContainer::read_with_type(&buf, 0, &PalettedContainerType::BlockStates);
    assert_eq!(r.unwrap_err(), DecodeError::MalformedVarInt);
}

#[test]
fn zero_bits_with_words_is_size_mismatch() {
    // bits_per_entry 0, palette VarInt 0, word count 1 and one 8-byte word:
    // a zero-width storage must carry no words
    let buf: Vec<u8> = vec![0, 0, 1, 0, 0, 0, 0, 0, 0, 0, 7];
    let r = PalettedContainer::read_with_type(&buf, 0, &PalettedContainerType::BlockStates);
    assert_eq!(r.unwrap_err(), DecodeError::SizeMismatch);
}

#[test]
fn wrong_word_count_is_size_mismatch() {
    // bits_per_entry 1 on BlockStates needs 64 words; offer none
    let buf: Vec<u8> = vec![1, 1, 0, 0];
    let r = PalettedContainer::read_with_type(&buf, 0, &PalettedContainerType::BlockStates);
    assert_eq!(r.unwrap_err(), DecodeError::SizeMismatch);
}

#[test]
fn decode_starts_at_given_position() {
    let c = PalettedContainer::new(&PalettedContainerType::Biomes).unwrap();
    let mut buf: Vec<u8> = vec![0xAA, 0xBB];
    c.write_into(&mut buf);
    let (d, consumed) =
        PalettedContainer::read_with_type(&buf, 2, &PalettedContainerType::Biomes).unwrap();
    assert_eq!(consumed, buf.len());
    assert_eq!(d.bits_per_entry, 0);
    assert_eq!(d.get_at_index(0), 0);
}

#[test]
fn multi_byte_varint_palette_round_trips() {
    let mut c = PalettedContainer::new(&PalettedContainerType::BlockStates).unwrap();
    // values above 127 need two VarInt bytes, above 16383 three
    c.set_at_index(0, 300);
    c.set_at_index(1, 70000);
    let mut buf: Vec<u8> = Vec::new();
    c.write_into(&mut buf);
    let (d, _) =
        PalettedContainer::read_with_type(&buf, 0, &PalettedContainerType::BlockStates).unwrap();
    assert_eq!(d.get_at_index(0), 300);
    assert_eq!(d.get_at_index(1), 70000);
    assert_eq!(d.get_at_index(2), 0);
}

#[test]
fn kind_table_matches_spec() {
    let bs = PalettedContainerType::BlockStates;
    let bio = PalettedContainerType::Biomes;
    assert_eq!(PaletteKind::from_bits_and_type(0, &bs), PaletteKind::SingleValue);
    assert_eq!(PaletteKind::from_bits_and_type(1, &bs), PaletteKind::Linear);
    assert_eq!(PaletteKind::from_bits_and_type(4, &bs), PaletteKind::Linear);
    assert_eq!(PaletteKind::from_bits_and_type(5, &bs), PaletteKind::Hashmap);
    assert_eq!(PaletteKind::from_bits_and_type(8, &bs), PaletteKind::Hashmap);
    assert_eq!(PaletteKind::from_bits_and_type(9, &bs), PaletteKind::Global);
    assert_eq!(PaletteKind::from_bits_and_type(32, &bs), PaletteKind::Global);
    assert_eq!(PaletteKind::from_bits_and_type(0, &bio), PaletteKind::SingleValue);
    assert_eq!(PaletteKind::from_bits_and_type(1, &bio), PaletteKind::Linear);
    assert_eq!(PaletteKind::from_bits_and_type(3, &bio), PaletteKind::Linear);
    assert_eq!(PaletteKind::from_bits_and_type(4, &bio), PaletteKind::Global);
    assert_eq!(PaletteKind::from_bits_and_type(32, &bio), PaletteKind::Global);
}

#[test]
fn value_for_resolves_each_palette_shape() {
    let single = Palette::SingleValue(9);
    assert_eq!(single.value_for(0), 9);
    assert_eq!(single.value_for(5), 9);
    let linear = Palette::Linear(vec![10, 20, 30]);
    assert_eq!(linear.value_for(0), 10);
    assert_eq!(linear.value_for(2), 30);
    let hashmap = Palette::Hashmap(vec![7, 8]);
    assert_eq!(hashmap.value_for(1), 8);
    assert_eq!(hashmap.value_for(9), 0);
    let global = Palette::Global;
    assert_eq!(global.value_for(12345), 12345);
}

#[test]
fn as_empty_palette_matches_kind() {
    assert!(matches!(
        PaletteKind::SingleValue.as_empty_palette(),
        Palette::SingleValue(0)
    ));
    assert!(matches!(PaletteKind::Linear.as_empty_palette(), Palette::Linear(v) if v.is_empty()));
    assert!(matches!(PaletteKind::Hashmap.as_empty_palette(), Palette::Hashmap(v) if v.is_empty()));
    assert!(matches!(PaletteKind::Global.as_empty_palette(), Palette::Global));
}
