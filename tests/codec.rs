use veggie_puzzle::data::{Decoder, Encoder};
use veggie_puzzle::puzzle::Puzzle;
use veggie_puzzle::rules::Tile;
use veggie_puzzle::veggie::Veggie;

const BUILT_IN: [&str; 13] = [
    "VCVWUEBG4B$",
    "VCVW5F(ADNA",
    "VCVWVxm\"MMYLCA*B",
    "VCVW&a*A/AfZ$AD",
    "VCVW&a!F4DnzDtHD3WpLgjJBJ",
    "VCVWdZBGOC0W`QpB>WtL8MFBOC$",
    "VCVW5Fn\"KCSw(H(tO\"*MGSlBHtgjJB4Z_Q4WaS",
    "VCVWUEH\"hL[WlBMuk4A",
    "VCVWxd*ADD64{X_\"UcmEmO?WoGDHnG+B",
    "VCVWVxC\"$BFU.AH",
    "VCVWDH(GUzKoUE~BvWB",
    "VCVWxdDGBDdL;FEMRt~Q\"Ii\"XMI%IYnJv(0AE",
    "VCVWUED\"`M?()A(ZnnPj[B,WC",
];

fn two_strawberries() -> Puzzle {
    Puzzle {
        author: "ab".to_string(),
        size: (2, 1),
        veggies: vec![],
        tiles: vec![],
        placed: vec![((0, 0), Veggie::Strawberry), ((1, 0), Veggie::Strawberry)],
    }
}

/// Packs bits, most significant first, padded with zeros, and writes them as basE91.
fn text_of_bits(bits: &[bool]) -> String {
    let mut bits = bits.to_vec();
    while bits.len() % 8 != 0 {
        bits.push(false);
    }
    let bytes: Vec<u8> = bits.chunks(8).map(Encoder::slice_to_u8).collect();
    String::from_utf8(base91::slice_encode(&bytes)).unwrap()
}

fn header(width: u8, height: u8) -> Vec<bool> {
    let mut bits = Encoder::encode_u5(0);
    bits.extend(Encoder::encode_u5(width));
    bits.extend(Encoder::encode_u4(height));
    bits
}

fn record(bits: &mut Vec<bool>, x: u8, y: u8, tag: u8) {
    bits.extend(Encoder::encode_u5(x));
    bits.extend(Encoder::encode_u4(y));
    bits.extend(Encoder::encode_u4(tag));
}

#[test]
fn two_strawberries_end_to_end() {
    let p = two_strawberries();
    assert_eq!(p.is_valid(), Ok(()));
    let s = Encoder::encode_puzzle(&p).unwrap();
    assert!(!s.is_empty());
    let d = Decoder::decode_puzzle(s).unwrap();
    assert_eq!(d.author, "ab");
    assert_eq!(d.size, (2, 1));
    assert_eq!(d.placed, vec![((0, 0), Veggie::Strawberry), ((1, 0), Veggie::Strawberry)]);
    assert!(d.tiles.is_empty());
    assert_eq!(d.veggies, vec![(Veggie::Strawberry, 2)]);
}

#[test]
fn encoded_text_is_base91_of_the_level_bits() {
    let p = two_strawberries();
    let mut bits = vec![];
    bits.extend(Encoder::encode_u5(1));
    bits.extend(Encoder::encode_u5(2));
    bits.extend(header(2, 1));
    record(&mut bits, 0, 0, 3);
    record(&mut bits, 1, 0, 3);
    assert_eq!(Encoder::encode_puzzle(&p).unwrap(), text_of_bits(&bits));
}

#[test]
fn level_bytes_of_two_strawberries() {
    // "ab", 0, width 2, height 1, (0,0) strawberry, (1,0) strawberry, padding
    let bytes = Encoder::encode_bytes(&two_strawberries()).unwrap();
    assert_eq!(bytes, vec![0x08, 0x80, 0x21, 0x00, 0x18, 0x40, 0xC0]);
    let d = Decoder::decode_bytes(&bytes).unwrap();
    assert_eq!(d.author, "ab");
    assert_eq!(d.size, (2, 1));
    assert_eq!(d.placed, vec![((0, 0), Veggie::Strawberry), ((1, 0), Veggie::Strawberry)]);
    let mut empty = two_strawberries();
    empty.placed.clear();
    assert!(Encoder::encode_bytes(&empty).is_none());
    assert!(Decoder::decode_bytes(&vec![]).is_none());
}

#[test]
fn round_trip_keeps_everything() {
    let p = Puzzle {
        author: "zoe".to_string(),
        size: (10, 7),
        veggies: vec![],
        tiles: vec![((0, 6), Tile::Water), ((9, 6), Tile::Rock), ((5, 0), Tile::Water)],
        placed: vec![
            ((0, 0), Veggie::Strawberry),
            ((1, 1), Veggie::Strawberry),
            ((9, 0), Veggie::Mint),
            ((3, 3), Veggie::Tomato),
            ((4, 4), Veggie::Garlic),
            ((7, 5), Veggie::Cherry),
            ((8, 4), Veggie::Cherry),
        ],
    };
    assert_eq!(p.is_valid(), Ok(()));
    let d = Decoder::decode_puzzle(Encoder::encode_puzzle(&p).unwrap()).unwrap();
    assert_eq!(d.author, p.author);
    assert_eq!(d.size, p.size);
    assert_eq!(d.tiles, p.tiles);
    assert_eq!(d.placed, p.placed);
    assert_eq!(
        d.veggies,
        vec![
            (Veggie::Strawberry, 2),
            (Veggie::Mint, 1),
            (Veggie::Tomato, 1),
            (Veggie::Garlic, 1),
            (Veggie::Cherry, 2),
        ]
    );
}

#[test]
fn long_author_is_cut_to_nine_letters() {
    let mut p = two_strawberries();
    p.author = "abcdefghijklm".to_string();
    let d = Decoder::decode_puzzle(Encoder::encode_puzzle(&p).unwrap()).unwrap();
    assert_eq!(d.author, "abcdefghi");
    p.author = "abcdefghi".to_string();
    let d = Decoder::decode_puzzle(Encoder::encode_puzzle(&p).unwrap()).unwrap();
    assert_eq!(d.author, "abcdefghi");
}

#[test]
fn empty_author_round_trips() {
    let mut p = two_strawberries();
    p.author = String::new();
    let d = Decoder::decode_puzzle(Encoder::encode_puzzle(&p).unwrap()).unwrap();
    assert_eq!(d.author, "");
}

#[test]
fn cells_off_the_grid_are_skipped() {
    let mut p = two_strawberries();
    p.size = (10, 7);
    p.tiles = vec![((10, 0), Tile::Rock), ((-1, 3), Tile::Water), ((0, 7), Tile::Rock)];
    let d = Decoder::decode_puzzle(Encoder::encode_puzzle(&p).unwrap()).unwrap();
    assert!(d.tiles.is_empty());
    assert_eq!(d.placed, p.placed);
}

#[test]
fn encode_rejects_invalid_puzzles() {
    let mut empty = two_strawberries();
    empty.placed = vec![];
    assert!(Encoder::encode_puzzle(&empty).is_none());

    let mut unhappy = two_strawberries();
    unhappy.size = (3, 3);
    unhappy.placed = vec![((0, 0), Veggie::Strawberry), ((2, 2), Veggie::Strawberry)];
    assert!(Encoder::encode_puzzle(&unhappy).is_none());

    let mut wide = two_strawberries();
    wide.size = (11, 1);
    assert!(Encoder::encode_puzzle(&wide).is_none());
}

#[test]
fn decode_rejects_unknown_tags() {
    for tag in [0u8, 10, 11, 12, 13, 14, 15] {
        let mut bits = header(2, 1);
        record(&mut bits, 0, 0, 3);
        record(&mut bits, 1, 0, tag);
        assert!(Decoder::decode_puzzle(text_of_bits(&bits)).is_none());
    }
    let mut bits = header(2, 1);
    record(&mut bits, 0, 0, 3);
    record(&mut bits, 1, 0, 3);
    assert!(Decoder::decode_puzzle(text_of_bits(&bits)).is_some());
}

#[test]
fn decode_rejects_truncated_input() {
    assert!(Decoder::decode_puzzle(String::new()).is_none());
    // an author that never ends
    let bits = Encoder::encode_u5(1);
    assert!(Decoder::decode_puzzle(text_of_bits(&bits)).is_none());
    // a size that does not fit
    let mut bits = Encoder::encode_u5(0);
    bits.extend(Encoder::encode_u5(2));
    assert!(Decoder::decode_puzzle(text_of_bits(&bits)).is_none());
}

#[test]
fn decode_rejects_invalid_levels() {
    // an empty grid
    assert!(Decoder::decode_puzzle(text_of_bits(&header(2, 1))).is_none());
    // a lone strawberry
    let mut bits = header(2, 1);
    record(&mut bits, 0, 0, 3);
    assert!(Decoder::decode_puzzle(text_of_bits(&bits)).is_none());
    // too wide
    let mut bits = header(11, 1);
    record(&mut bits, 0, 0, 3);
    record(&mut bits, 1, 0, 3);
    assert!(Decoder::decode_puzzle(text_of_bits(&bits)).is_none());
}

#[test]
fn decode_keeps_the_last_record_of_a_cell() {
    let mut bits = header(3, 1);
    record(&mut bits, 0, 0, 9);
    record(&mut bits, 0, 0, 3);
    record(&mut bits, 1, 0, 3);
    let d = Decoder::decode_puzzle(text_of_bits(&bits)).unwrap();
    assert_eq!(d.placed, vec![((0, 0), Veggie::Strawberry), ((1, 0), Veggie::Strawberry)]);
    assert_eq!(d.veggies, vec![(Veggie::Strawberry, 2)]);
}

#[test]
fn built_in_levels_decode() {
    for level in BUILT_IN {
        let p = Decoder::decode_puzzle(level.to_string()).unwrap();
        assert_eq!(p.is_valid(), Ok(()));
        assert!(!p.placed.is_empty());
        let total: usize = p.veggies.iter().map(|v| v.1).sum();
        assert_eq!(total, p.placed.len());
    }
}

#[test]
fn first_built_in_level_holds_two_strawberries() {
    let mut p = Decoder::decode_puzzle(BUILT_IN[0].to_string()).unwrap();
    assert_eq!(p.veggies, vec![(Veggie::Strawberry, 2)]);
    assert!(p.tiles.is_empty());
    p.prepare();
    assert!(p.placed.is_empty());
    assert_eq!(p.remaining_veggie(&Veggie::Strawberry, false), 2);
}

#[test]
fn bit_helpers() {
    assert_eq!(Encoder::encode_u5(5), vec![false, false, true, false, true]);
    assert_eq!(Encoder::encode_u5(31), vec![true; 5]);
    assert_eq!(Encoder::encode_u4(9), vec![true, false, false, true]);
    assert_eq!(Encoder::encode_tile(&Tile::Water), vec![false, false, false, true]);
    assert_eq!(Encoder::encode_tile(&Tile::Rock), vec![false, false, true, false]);
    assert_eq!(Encoder::encode_veggie(&Veggie::Strawberry), vec![false, false, true, true]);
    assert_eq!(Encoder::encode_veggie(&Veggie::Mint), vec![true, false, false, true]);
    assert_eq!(
        Encoder::slice_to_u8(&[true, false, false, false, false, false, false, true]),
        129
    );
    assert_eq!(Encoder::slice_to_u8(&[true, true]), 192);
    assert_eq!(Encoder::slice_to_u8(&[true]), 128);
    assert_eq!(Encoder::slice_to_u8(&[]), 0);
    assert_eq!(Encoder::slice_to_u8(&Decoder::u8_to_slice(173)), 173);
    assert_eq!(
        Decoder::u8_to_slice(130),
        vec![true, false, false, false, false, false, true, false]
    );
    assert_eq!(Decoder::decode_u5(&[true, false, false, false, true]), 17);
    assert_eq!(Decoder::decode_u4(&[false, true, true, false]), 6);
    assert_eq!(Decoder::decode_char(&[false, false, false, false, true]), 'a');
    assert_eq!(Decoder::decode_char(&[true, true, false, true, false]), 'z');
    // only the first bits count
    assert_eq!(Decoder::decode_u5(&[true, false, false, false, true, true, true]), 17);
    assert_eq!(Decoder::decode_u4(&[false, true, true, false, true]), 6);
    assert_eq!(Decoder::decode_char(&[false, false, false, true, false, true]), 'b');
    assert_eq!(Decoder::decode_u5(&Encoder::encode_u5(27)), 27);
}
