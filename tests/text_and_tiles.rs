use agb::bake::{BakedText, TileCollection};
use agb::text::{is_private_use, ChangeColour, TextAlignment, WhiteSpace};

#[test]
fn change_colour_round_trips_through_its_character() {
    let c = ChangeColour::new(2);
    assert_eq!(c.to_char(), '\u{E002}');
    assert_eq!(ChangeColour::try_from_char('\u{E002}'), Some(c));
    assert_eq!(ChangeColour::try_from_char('\u{E00F}'), Some(ChangeColour::new(15)));
    assert_eq!(ChangeColour::try_from_char('\u{E010}'), None);
    assert_eq!(ChangeColour::try_from_char('a'), None);
}

#[test]
fn private_use_range() {
    assert!(is_private_use('\u{E000}'));
    assert!(is_private_use('\u{F8FE}'));
    assert!(!is_private_use('\u{F8FF}'));
    assert!(!is_private_use('z'));
}

#[test]
fn whitespace_from_char() {
    assert_eq!(WhiteSpace::from_char(' '), WhiteSpace::Space);
    assert_eq!(WhiteSpace::from_char('\n'), WhiteSpace::NewLine);
}

#[test]
fn alignment_defaults_to_left() {
    assert_eq!(TextAlignment::default(), TextAlignment::Left);
}

#[test]
fn set_pixel_writes_one_nibble() {
    // two tiles across, one tile down
    let mut t = TileCollection::new(vec![0; 16], 2);
    t.set_pixel(0, 0, 1);
    t.set_pixel(3, 0, 0xA);
    t.set_pixel(9, 2, 5);
    t.set_pixel(15, 7, 0xF);
    let tiles = t.into_tiles();
    assert_eq!(tiles[0], 0x0000_A001);
    assert_eq!(tiles[8 + 2], 0x0000_0050);
    assert_eq!(tiles[8 + 7], 0xF000_0000);
    assert_eq!(tiles.iter().filter(|w| **w != 0).count(), 3);
}

#[test]
fn set_pixel_overwrites_a_pixel() {
    let mut t = TileCollection::new(vec![0xFFFF_FFFF; 8], 1);
    t.set_pixel(4, 1, 2);
    let tiles = t.into_tiles();
    assert_eq!(tiles[1], 0xFFF2_FFFF);
    assert_eq!(tiles[0], 0xFFFF_FFFF);
}

#[test]
fn baked_text_exposes_its_tiles() {
    let b = BakedText::new(vec![0x0403_0201, 0xDDCC_BBAA], 1, 2);
    assert_eq!(b.width(), 1);
    assert_eq!(b.height(), 2);
    assert_eq!(b.data(), &[0x0403_0201, 0xDDCC_BBAA]);
    assert_eq!(b.data_bytes(), vec![1, 2, 3, 4, 0xAA, 0xBB, 0xCC, 0xDD]);
}
