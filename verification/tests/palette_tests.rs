use chunk_palette::container::PalettedContainer;
use chunk_palette::palette::{Palette, PaletteKind, PalettedContainerType};

#[test]
fn test_resize_0_bits_to_1() {
    let mut palette_container = PalettedContainer::new(&PalettedContainerType::BlockStates).unwrap();

    assert_eq!(palette_container.bits_per_entry, 0);
    assert_eq!(palette_container.get_at_index(0), 0);
    assert_eq!(
        PaletteKind::from(&palette_container.palette),
        PaletteKind::SingleValue
    );
    palette_container.set_at_index(0, 1);
    assert_eq!(palette_container.get_at_index(0), 1);
    assert_eq!(
        PaletteKind::from(&palette_container.palette),
        PaletteKind::Linear
    );
}

#[test]
fn test_resize_0_bits_to_5() {
    let mut palette_container = PalettedContainer::new(&PalettedContainerType::BlockStates).unwrap();

    palette_container.set_at_index(0, 0); // 0 bits
    assert_eq!(palette_container.bits_per_entry, 0);

    palette_container.set_at_index(1, 1); // 1 bit
    assert_eq!(palette_container.bits_per_entry, 1);

    palette_container.set_at_index(2, 2); // 2 bits
    assert_eq!(palette_container.bits_per_entry, 2);
    palette_container.set_at_index(3, 3);

    palette_container.set_at_index(4, 4); // 3 bits
    assert_eq!(palette_container.bits_per_entry, 3);
    palette_container.set_at_index(5, 5);
    palette_container.set_at_index(6, 6);
    palette_container.set_at_index(7, 7);

    palette_container.set_at_index(8, 8); // 4 bits
    assert_eq!(palette_container.bits_per_entry, 4);
    palette_container.set_at_index(9, 9);
    palette_container.set_at_index(10, 10);
    palette_container.set_at_index(11, 11);
    palette_container.set_at_index(12, 12);
    palette_container.set_at_index(13, 13);
    palette_container.set_at_index(14, 14);
    palette_container.set_at_index(15, 15);
    assert_eq!(palette_container.bits_per_entry, 4);

    palette_container.set_at_index(16, 16); // 5 bits
    assert_eq!(palette_container.bits_per_entry, 5);
}

#[test]
fn test_coords_from_index() {
    let palette_container = PalettedContainer::new(&PalettedContainerType::BlockStates).unwrap();

    for x in 0..15 {
        for y in 0..15 {
            for z in 0..15 {
                assert_eq!(
                    palette_container.coords_from_index(palette_container.index_from_coords(x, y, z)),
                    (x, y, z)
                );
            }
        }
    }
}

#[test]
fn empty_block_states_reads_zero_everywhere() {
    let c = PalettedContainer::new(&PalettedContainerType::BlockStates).unwrap();
    assert_eq!(c.bits_per_entry, 0);
    assert!(matches!(c.palette, Palette::SingleValue(0)));
    assert_eq!(c.get(0, 0, 0), 0);
    assert_eq!(c.get(15, 15, 15), 0);
}

#[test]
fn zero_to_one_bit_promotion() {
    let mut c = PalettedContainer::new(&PalettedContainerType::BlockStates).unwrap();
    c.set_at_index(0, 1);
    assert_eq!(c.bits_per_entry, 1);
    assert!(matches!(c.palette, Palette::Linear(_)));
    assert_eq!(c.get_at_index(0), 1);
    assert_eq!(c.get_at_index(1), 0);
}

#[test]
fn coord_mapping_block_states() {
    let c = PalettedContainer::new(&PalettedContainerType::BlockStates).unwrap();
    assert_eq!(c.index_from_coords(1, 2, 3), 0x231);
    assert_eq!(c.index_from_coords(1, 2, 3), 561);
    assert_eq!(c.coords_from_index(561), (1, 2, 3));
}

#[test]
fn writing_same_single_value_keeps_zero_bits() {
    let mut c = PalettedContainer::new(&PalettedContainerType::BlockStates).unwrap();
    c.set_at_index(0, 0);
    c.set(3, 4, 5, 0);
    assert_eq!(c.bits_per_entry, 0);
    assert!(matches!(c.palette, Palette::SingleValue(0)));
}

#[test]
fn read_after_write_keeps_other_cells() {
    let mut c = PalettedContainer::new(&PalettedContainerType::BlockStates).unwrap();
    c.set(1, 2, 3, 77);
    c.set(4, 5, 6, 88);
    assert_eq!(c.get(1, 2, 3), 77);
    assert_eq!(c.get(4, 5, 6), 88);
    assert_eq!(c.get(0, 0, 0), 0);
    c.set(1, 2, 3, 99);
    assert_eq!(c.get(1, 2, 3), 99);
    assert_eq!(c.get(4, 5, 6), 88);
}

#[test]
fn get_and_set_returns_previous_id() {
    let mut c = PalettedContainer::new(&PalettedContainerType::BlockStates).unwrap();
    c.set(0, 0, 0, 5);
    let prev = c.get_and_set(0, 0, 0, 6);
    // the previous palette id resolves to the previous value
    assert_eq!(c.palette.value_for(prev as usize), 5);
    assert_eq!(c.get(0, 0, 0), 6);
}

#[test]
fn bits_never_decrease_and_kind_tracks_bits() {
    let mut c = PalettedContainer::new(&PalettedContainerType::BlockStates).unwrap();
    let mut last_bits = c.bits_per_entry;
    for i in 0..40usize {
        c.set_at_index(i, (i % 20) as u32);
        assert!(c.bits_per_entry >= last_bits);
        last_bits = c.bits_per_entry;
        assert_eq!(
            PaletteKind::from_bits_and_type(c.bits_per_entry, &c.container_type),
            PaletteKind::from(&c.palette)
        );
    }
}

#[test]
fn block_states_cross_to_hashmap_and_global() {
    let mut c = PalettedContainer::new(&PalettedContainerType::BlockStates).unwrap();
    for i in 0..17usize {
        c.set_at_index(i, i as u32);
    }
    assert_eq!(c.bits_per_entry, 5);
    assert!(matches!(c.palette, Palette::Hashmap(_)));
    for i in 0..257usize {
        c.set_at_index(i, i as u32);
    }
    assert_eq!(c.bits_per_entry, 9);
    assert!(matches!(c.palette, Palette::Global));
    for i in 0..257usize {
        assert_eq!(c.get_at_index(i), i as u32);
    }
}

#[test]
fn biomes_cross_to_global_at_ninth_value() {
    let mut c = PalettedContainer::new(&PalettedContainerType::Biomes).unwrap();
    for i in 0..9usize {
        c.set_at_index(i, i as u32);
    }
    assert_eq!(c.bits_per_entry, 4);
    assert!(matches!(c.palette, Palette::Global));
    assert_eq!(c.get_at_index(8), 8);
    assert_eq!(c.get_at_index(0), 0);
}

#[test]
fn codec_round_trip_all_cells() {
    let mut c = PalettedContainer::new(&PalettedContainerType::BlockStates).unwrap();
    for i in 0..100usize {
        c.set_at_index(i, (100 + i) as u32);
    }
    let mut buf: Vec<u8> = Vec::new();
    c.write_into(&mut buf);
    let (d, consumed) =
        PalettedContainer::read_with_type(&buf, 0, &PalettedContainerType::BlockStates).unwrap();
    assert_eq!(consumed, buf.len());
    assert_eq!(d.bits_per_entry, c.bits_per_entry);
    for i in 0..4096usize {
        assert_eq!(d.get_at_index(i), c.get_at_index(i));
    }
    // bit-exact: re-encoding gives the same bytes
    let mut buf2: Vec<u8> = Vec::new();
    d.write_into(&mut buf2);
    assert_eq!(buf, buf2);
}

#[test]
fn codec_round_trip_biomes() {
    let mut c = PalettedContainer::new(&PalettedContainerType::Biomes).unwrap();
    for i in 0..9usize {
        c.set_at_index(i, (i * 2) as u32);
    }
    let mut buf: Vec<u8> = Vec::new();
    c.write_into(&mut buf);
    let (d, consumed) =
        PalettedContainer::read_with_type(&buf, 0, &PalettedContainerType::Biomes).unwrap();
    assert_eq!(consumed, buf.len());
    for i in 0..64usize {
        assert_eq!(d.get_at_index(i), c.get_at_index(i));
    }
}

#[test]
fn empty_container_wire_shape() {
    let c = PalettedContainer::new(&PalettedContainerType::BlockStates).unwrap();
    let mut buf: Vec<u8> = Vec::new();
    c.write_into(&mut buf);
    // bits_per_entry 0, palette VarInt 0, word count VarInt 0
    assert_eq!(buf, vec![0u8, 0, 0]);
}
