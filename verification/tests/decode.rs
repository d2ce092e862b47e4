use excavator::decode::bounding_box;
use excavator::decode::decode_token;
use excavator::decode::token_chars;
use excavator::error::DecodeError;
use excavator::generate::generate_nft_id;
use rand::rngs::StdRng;
use rand::SeedableRng;

const SAMPLE: &str = "nft1qgqarlcwfjj7ct7kvh0zt067am2mgewp4y7a2nzfx8d9x8mudmes4u8mnv";

#[test]
fn sample_token_gives_28_rooms() {
    let fields = decode_token(SAMPLE).unwrap();
    assert_eq!(fields.room_count, 28);
    assert_eq!(fields.centers.len(), 28);
    assert_eq!(fields.sizes.len(), 28);
    assert_eq!(fields.shapes.len(), 28);
}

#[test]
fn sample_token_centers() {
    let fields = decode_token(SAMPLE).unwrap();
    assert_eq!(
        fields.centers,
        vec![
            (85, 138), (53, 143), (111, 63), (169, 79), (101, 101), (37, 63), (153, 37),
            (106, 164), (90, 0), (185, 153), (0, 32), (37, 53), (116, 11), (116, 85), (74, 169),
            (132, 21), (180, 37), (53, 11), (122, 185), (79, 175), (42, 69), (48, 175), (42, 116),
            (159, 69), (116, 74), (148, 21), (159, 42), (116, 122),
        ]
    );
    assert_eq!(fields.x_range, (-1, 186));
    assert_eq!(fields.y_range, (-1, 186));
}

#[test]
fn sample_token_sizes_and_area() {
    let fields = decode_token(SAMPLE).unwrap();
    assert_eq!(
        fields.sizes,
        vec![
            9, 9, 4, 10, 5, 6, 3, 8, 10, 7, 10, 5, 6, 6, 10, 5, 8, 9, 6, 8, 7, 9, 4, 9, 5, 8, 8, 9
        ]
    );
    assert_eq!(fields.area, 7196);
}

#[test]
fn sample_token_shapes() {
    let fields = decode_token(SAMPLE).unwrap();
    let shapes: String = fields.shapes.iter().collect();
    assert_eq!(shapes, "vgqarlcwfjj7ct7kvh0zt067am2m");
}

#[test]
fn sample_token_letters() {
    let fields = decode_token(SAMPLE).unwrap();
    assert_eq!(fields.dominant, Some('m'));
    assert_eq!(fields.frequency.get('m'), 5);
    assert_eq!(fields.frequency.get('n'), 3);
    assert_eq!(fields.frequency.get('s'), 1);
    assert_eq!(fields.frequency.get('b'), 0);
    assert_eq!(fields.frequency.get('7'), 0);
    assert_eq!(fields.frequency.get('M'), 0);
    let entries = fields.frequency.entries();
    assert_eq!(entries.len(), 23);
    assert_eq!(entries[0], ('a', 3));
    assert_eq!(entries[22], ('z', 2));
    assert_eq!(entries.iter().map(|entry| entry.1).sum::<usize>(), 46);
}

#[test]
fn short_token_reads_its_symbols_in_a_cycle() {
    // 3 rooms want 6 coordinates and 3 shapes from the 4 symbols `Az09`
    let fields = decode_token("nft11Az09").unwrap();
    assert_eq!(fields.room_count, 3);
    assert_eq!(fields.centers, vec![(17, 61), (0, 16), (17, 61)]);
    assert_eq!(fields.shapes, vec!['0', '9', 'A']);
    assert_eq!(fields.sizes, vec![11, 2, 7]);
    assert_eq!(fields.area, 23 * 23 + 5 * 5 + 15 * 15);
    assert_eq!(fields.x_range, (-1, 18));
    assert_eq!(fields.y_range, (15, 62));
}

#[test]
fn one_symbol_after_the_count_serves_every_field() {
    let fields = decode_token("nft10b").unwrap();
    assert_eq!(fields.room_count, 2);
    // 11 times the root of 2 is 15.6
    assert_eq!(fields.centers, vec![(16, 16), (16, 16)]);
    assert_eq!(fields.shapes, vec!['b', 'b']);
    // sizes come from the last two characters, `0` and `b`
    assert_eq!(fields.sizes, vec![2, 7]);
    assert_eq!(fields.x_range, (15, 17));
    assert_eq!(fields.y_range, (15, 17));
}

#[test]
fn sizes_may_reach_back_into_the_prefix() {
    // 37 rooms, 36 characters after the first: sizes start at `f`
    let token = "nft1z0123456789abcdefghijklmnopqrstuv";
    assert_eq!(token.len(), 37);
    let fields = decode_token(token).unwrap();
    assert_eq!(fields.room_count, 37);
    // the root of `n` is 4.8, one and a half times that 7.2; a quarter of the root of 37 is 1.5
    assert_eq!(fields.sizes[0], 2 + 7 - 2);
    assert_eq!(fields.sizes[36], 2 + 8 - 2);
}

#[test]
fn dominant_letter_with_a_tie_is_the_one_seen_first() {
    // `n`, `f` and `t` occur once each, like `z`
    assert_eq!(decode_token("nft11Az09").unwrap().dominant, Some('n'));
    // `b` and `a` occur twice each, `b` first
    assert_eq!(decode_token("nft10baab").unwrap().dominant, Some('b'));
    assert_eq!(decode_token("nft10abba").unwrap().dominant, Some('a'));
    // `t` occurs three times
    assert_eq!(decode_token("nft10tata").unwrap().dominant, Some('t'));
}

#[test]
fn upper_case_letters_are_not_counted() {
    let fields = decode_token("nft10ZZZZZZ").unwrap();
    assert_eq!(fields.dominant, Some('n'));
    assert_eq!(fields.frequency.get('z'), 0);
    assert_eq!(fields.frequency.entries(), vec![('f', 1), ('n', 1), ('t', 1)]);
}

#[test]
fn wrong_prefix_is_refused() {
    assert_eq!(decode_token("").unwrap_err(), DecodeError::InvalidPrefix);
    assert_eq!(decode_token("nft").unwrap_err(), DecodeError::InvalidPrefix);
    assert_eq!(decode_token("nft2abcdef").unwrap_err(), DecodeError::InvalidPrefix);
    assert_eq!(decode_token("NFT1abcdef").unwrap_err(), DecodeError::InvalidPrefix);
    assert_eq!(decode_token("xnft1abcdef").unwrap_err(), DecodeError::InvalidPrefix);
}

#[test]
fn token_that_ends_too_early_is_refused() {
    assert_eq!(decode_token("nft1").unwrap_err(), DecodeError::TooShort);
    assert_eq!(decode_token("nft10").unwrap_err(), DecodeError::TooShort);
    assert_eq!(decode_token("nft1z").unwrap_err(), DecodeError::TooShort);
}

#[test]
fn room_count_that_is_no_symbol_is_refused() {
    assert_eq!(decode_token("nft1-abcdef").unwrap_err(), DecodeError::InvalidCharacter);
    assert_eq!(decode_token("nft1!").unwrap_err(), DecodeError::InvalidCharacter);
    assert_eq!(decode_token("nft1éabcdef").unwrap_err(), DecodeError::InvalidCharacter);
}

#[test]
fn coordinate_that_is_no_symbol_is_refused() {
    assert_eq!(decode_token("nft10ab-d99").unwrap_err(), DecodeError::InvalidCharacter);
    assert_eq!(decode_token("nft10_").unwrap_err(), DecodeError::InvalidCharacter);
    // the bad character lies after the coordinates and the sizes: nothing reads it as a number
    assert!(decode_token("nft10abcd-xyz99").is_ok());
}

#[test]
fn size_that_is_no_symbol_is_refused() {
    assert_eq!(decode_token("nft10abcdxyz-9").unwrap_err(), DecodeError::InvalidCharacter);
    assert_eq!(decode_token("nft10abcdxyz9 ").unwrap_err(), DecodeError::InvalidCharacter);
}

#[test]
fn token_with_fewer_characters_than_rooms_is_refused() {
    // 37 rooms, 36 characters
    let token = "nft1z0123456789abcdefghijklmnopqrstu";
    assert_eq!(token.len(), 36);
    assert_eq!(decode_token(token).unwrap_err(), DecodeError::IndexOutOfBounds);
    assert_eq!(decode_token("nft1z0").unwrap_err(), DecodeError::IndexOutOfBounds);
    // a bad coordinate is found before the sizes are looked at
    assert_eq!(decode_token("nft1z-").unwrap_err(), DecodeError::InvalidCharacter);
}

#[test]
fn room_count_is_two_plus_the_fifth_symbol() {
    let tail = "0123456789abcdefghijklmnopqrstuvwxyzABCDEFGHIJKLMNOPQRSTUVWXYZ";
    for (value, symbol) in ('0'..='9').chain('a'..='z').enumerate() {
        let token = format!("nft1{symbol}{tail}");
        let fields = decode_token(&token).unwrap();
        assert_eq!(fields.room_count, 2 + value);
        assert_eq!(fields.centers.len(), 2 + value);
        assert_eq!(fields.sizes.len(), 2 + value);
        assert_eq!(fields.shapes.len(), 2 + value);
    }
    assert_eq!(decode_token(&format!("nft1Q{tail}")).unwrap().room_count, 28);
}

#[test]
fn characters_are_counted_not_bytes() {
    assert_eq!(token_chars("nft1é0"), vec!['n', 'f', 't', '1', 'é', '0']);
    // the shapes are read after the 4 coordinates: `é` is a shape, and no size
    let fields = decode_token("nft10abcdéxy").unwrap();
    assert_eq!(fields.shapes, vec!['é', 'x']);
    assert_eq!(fields.sizes, vec![2 + 9, 2 + 9]);
}

#[test]
fn box_is_one_wider_than_the_centers() {
    assert_eq!(bounding_box(&vec![(3, 4)]), ((2, 4), (3, 5)));
    assert_eq!(bounding_box(&vec![(3, 4), (-2, 9), (0, 0)]), ((-3, 4), (-1, 10)));
    assert_eq!(bounding_box(&Vec::new()), ((-1, 1), (-1, 1)));
}

#[test]
fn fields_agree_with_floating_point_formulas() {
    let mut rng = StdRng::seed_from_u64(2718);
    for _ in 0..300 {
        let token = generate_nft_id(&mut rng);
        let chars: Vec<char> = token.chars().collect();
        let value = |c: char| c.to_digit(36).unwrap() as f64;
        let rooms = 2 + chars[4].to_digit(36).unwrap() as usize;
        let root = (rooms as f64).sqrt();
        let fields = decode_token(&token).unwrap();
        assert_eq!(fields.room_count, rooms);
        let mut area = 0u64;
        for k in 0..rooms {
            let at = |index: usize| chars[5 + (index - 5) % (chars.len() - 5)];
            let x = (value(at(5 + 2 * k)) * root).round() as i32;
            let y = (value(at(6 + 2 * k)) * root).round() as i32;
            assert_eq!(fields.centers[k], (x, y), "{token} room {k}");
            let size_symbol = chars[chars.len() - rooms + k];
            let size = 2 + (value(size_symbol).sqrt() * 1.5).round() as i32
                - (root / 4.0).round() as i32;
            assert_eq!(fields.sizes[k] as i32, size, "{token} room {k}");
            assert_eq!(fields.shapes[k], at(5 + 2 * rooms + k));
            area += ((2 * size + 1) * (2 * size + 1)) as u64;
        }
        assert_eq!(fields.area, area);
        let least_x = fields.centers.iter().map(|c| c.0).min().unwrap();
        let most_y = fields.centers.iter().map(|c| c.1).max().unwrap();
        assert_eq!(fields.x_range.0, least_x - 1);
        assert_eq!(fields.y_range.1, most_y + 1);
    }
}
