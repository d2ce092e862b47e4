use excavator::decode::decode_token;
use excavator::dungeon::parse_nft_id;
use excavator::error::DecodeError;
use excavator::generate::base62_symbol;
use excavator::generate::generate_nft_id;
use rand::rngs::StdRng;
use rand::SeedableRng;

#[test]
fn symbols_are_digits_then_letters() {
    let all: String = (0..62).map(base62_symbol).collect();
    assert_eq!(all, "0123456789abcdefghijklmnopqrstuvwxyzABCDEFGHIJKLMNOPQRSTUVWXYZ");
}

#[test]
fn generated_token_has_prefix_and_58_symbols() {
    let mut rng = StdRng::seed_from_u64(11);
    let token = generate_nft_id(&mut rng);
    assert_eq!(token.chars().count(), 62);
    assert!(token.starts_with("nft1"));
    assert!(token.chars().all(|c| c.is_ascii_alphanumeric()));
    // the symbols are drawn, not one symbol 58 times
    let first = token.chars().nth(4).unwrap();
    assert!(token.chars().skip(4).any(|c| c != first));
}

#[test]
fn generated_tokens_follow_the_seed() {
    let a = generate_nft_id(&mut StdRng::seed_from_u64(1));
    let b = generate_nft_id(&mut StdRng::seed_from_u64(1));
    let c = generate_nft_id(&mut StdRng::seed_from_u64(2));
    assert_eq!(a, b);
    assert_ne!(a, c);
}

#[test]
fn generated_tokens_can_be_read() {
    let mut rng = StdRng::seed_from_u64(99);
    for _ in 0..200 {
        let token = generate_nft_id(&mut rng);
        let fields = decode_token(&token).unwrap();
        assert_eq!(fields.centers.len(), fields.room_count);
        match parse_nft_id(&token, &mut rng) {
            Ok(dungeon) => assert!(dungeon.dungeon_level >= 1),
            Err(e) => assert_eq!(e, DecodeError::ScatterCapacityExceeded),
        }
    }
}

#[test]
fn errors_say_what_went_wrong() {
    assert_eq!(DecodeError::InvalidPrefix.message(), "the token does not start with 'nft1'");
    assert_eq!(DecodeError::TooShort.message(), "the token is too short");
    assert_eq!(
        DecodeError::InvalidCharacter.message(),
        "the token holds a character that is neither digit nor letter"
    );
    assert_eq!(
        DecodeError::IndexOutOfBounds.message(),
        "the token has fewer characters than rooms"
    );
    assert_eq!(
        DecodeError::ScatterCapacityExceeded.message(),
        "the box around the rooms has too few free cells"
    );
}
