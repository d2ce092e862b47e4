use excavator::symbols::char_to_num;
use excavator::symbols::is_alphanumeric;
use excavator::symbols::is_lowercase;
use excavator::symbols::lower_letter;
use excavator::symbols::to_lowercase;

#[test]
fn digits_stand_for_themselves() {
    assert_eq!(char_to_num('0'), 0);
    assert_eq!(char_to_num('7'), 7);
    assert_eq!(char_to_num('9'), 9);
}

#[test]
fn letters_count_from_ten_in_either_case() {
    assert_eq!(char_to_num('a'), 10);
    assert_eq!(char_to_num('A'), 10);
    assert_eq!(char_to_num('q'), 26);
    assert_eq!(char_to_num('z'), 35);
    assert_eq!(char_to_num('Z'), 35);
}

#[test]
fn every_symbol_has_a_value_below_36() {
    for c in ('0'..='9').chain('a'..='z').chain('A'..='Z') {
        assert!(is_alphanumeric(c));
        let value = char_to_num(c);
        assert!((0..36).contains(&value), "{c} gives {value}");
        assert_eq!(char_to_num(to_lowercase(c)), value);
    }
}

#[test]
fn other_characters_are_no_symbols() {
    for c in ['!', ' ', '-', '_', '[', '`', '{', '/', ':', '@', 'é', 'ß', '٣', '\u{10FFFF}'] {
        assert!(!is_alphanumeric(c), "{c}");
    }
    assert_eq!(char_to_num('!'), 33 - 97 + 10);
    assert_eq!(char_to_num('['), 91 - 97 + 10);
    assert_eq!(char_to_num('é'), 0xe9 - 97 + 10);
}

#[test]
fn only_ascii_letters_are_folded() {
    assert_eq!(to_lowercase('A'), 'a');
    assert_eq!(to_lowercase('Z'), 'z');
    assert_eq!(to_lowercase('m'), 'm');
    assert_eq!(to_lowercase('5'), '5');
    assert_eq!(to_lowercase('É'), 'É');
    assert_eq!(to_lowercase('['), '[');
    assert_eq!(to_lowercase('@'), '@');
}

#[test]
fn lower_case_test_and_alphabet_agree() {
    for index in 0..26u32 {
        let letter = lower_letter(index);
        assert!(is_lowercase(letter));
        assert_eq!(letter as u32, 'a' as u32 + index);
    }
    assert!(!is_lowercase('A'));
    assert!(!is_lowercase('1'));
    assert!(!is_lowercase('{'));
    assert!(!is_lowercase('`'));
}
