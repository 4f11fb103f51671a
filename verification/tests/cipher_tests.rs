use tapcode::check_grid_file_content;
use tapcode::Tapcode;
use tapcode::TapcodeError;

const DEFAULT_ALPHABET: &str = "abcdefghiklmnopqrstuvwxyz";

fn default_grid() -> Tapcode {
    Tapcode::new(DEFAULT_ALPHABET, '.').unwrap()
}

#[test]
fn construction_accepts_25_characters() {
    assert!(Tapcode::new(DEFAULT_ALPHABET, '.').is_ok());
}

#[test]
fn construction_rejects_wrong_lengths() {
    for alphabet in ["", "a", "abcdefghiklmnopqrstuvwxy", "abcdefghiklmnopqrstuvwxyza"] {
        assert_eq!(
            Tapcode::new(alphabet, '.').err(),
            Some(TapcodeError::InvalidAlphabetLength),
            "alphabet of length {} must be rejected",
            alphabet.len()
        );
    }
    let hundred = "a".repeat(100);
    assert_eq!(
        Tapcode::new(&hundred, '.').err(),
        Some(TapcodeError::InvalidAlphabetLength)
    );
}

#[test]
fn construction_lower_cases_the_alphabet() {
    let t = Tapcode::new("ABCDEFGHIKLMNOPQRSTUVWXYZ", '.').unwrap();
    assert_eq!(t.grid_string(), DEFAULT_ALPHABET);
    assert_eq!(t.encode("ab").unwrap(), ". . . ..");
}

#[test]
fn find_char_positions() {
    let t = default_grid();
    assert_eq!(t.find_char('a'), Some((0, 0)));
    assert_eq!(t.find_char('s'), Some((3, 2)));
    assert_eq!(t.find_char('o'), Some((2, 3)));
    assert_eq!(t.find_char('z'), Some((4, 4)));
    assert_eq!(t.find_char('j'), None);
    assert_eq!(t.find_char('1'), None);
}

#[test]
fn encode_sos_is_deterministic() {
    let t = default_grid();
    // s is at row 3, col 2; o is at row 2, col 3.
    assert_eq!(t.encode("sos").unwrap(), ".... ... ... .... .... ...");
}

#[test]
fn encode_upper_case_message_is_lowered() {
    let t = default_grid();
    assert_eq!(t.encode("SOS").unwrap(), t.encode("sos").unwrap());
}

#[test]
fn encode_rejects_blank_messages() {
    let t = default_grid();
    assert_eq!(t.encode("").err(), Some(TapcodeError::EmptyMessage));
    assert_eq!(t.encode("   \t\n").err(), Some(TapcodeError::EmptyMessage));
}

#[test]
fn encode_rejects_characters_outside_the_grid() {
    let t = default_grid();
    assert_eq!(t.encode("j").err(), Some(TapcodeError::CharacterNotInGrid));
    assert_eq!(t.encode("a7b").err(), Some(TapcodeError::CharacterNotInGrid));
    assert_eq!(t.encode("so!").err(), Some(TapcodeError::CharacterNotInGrid));
}

#[test]
fn encode_multiple_words_joined_by_bar() {
    let t = default_grid();
    // a (1,1), b (1,2) | c (1,3), d (1,4)
    let code = t.encode("ab cd").unwrap();
    assert_eq!(code, ". . . .. |. ... . ....");
    assert_eq!(code.matches('|').count(), 1);
    assert_eq!(t.decode(&code).unwrap(), "ab cd");
}

#[test]
fn encode_any_whitespace_becomes_word_separator() {
    let t = default_grid();
    assert_eq!(t.encode("a\tb").unwrap(), ". . |. ..");
    assert_eq!(t.encode("a\nb").unwrap(), ". . |. ..");
    // Non-ASCII whitespace (here a no-break space) separates words too.
    assert_eq!(t.encode("a\u{00a0}b").unwrap(), ". . |. ..");
}

#[test]
fn encode_whitespace_wins_over_grid_cell() {
    // Even when a whitespace character is one of the 25 cells, whitespace
    // in the message still becomes the word separator, never tap counts.
    let t = Tapcode::new("abcdefghiklmnopqrstuvwxy ", '.').unwrap();
    assert_eq!(t.encode("a ").unwrap(), ". . |");
    assert_eq!(t.encode("a b").unwrap(), ". . |. ..");
}

#[test]
fn encode_with_custom_tap_marker() {
    let t = Tapcode::new(DEFAULT_ALPHABET, '*').unwrap();
    assert_eq!(t.tap_symbol(), '*');
    assert_eq!(t.encode("a").unwrap(), "* *");
    assert_eq!(t.decode("* *").unwrap(), "a");
}

#[test]
fn decode_sos() {
    let t = default_grid();
    assert_eq!(t.decode(".... ... ... .... .... ...").unwrap(), "sos");
}

#[test]
fn decode_rejects_blank_input() {
    let t = default_grid();
    assert_eq!(t.decode("").err(), Some(TapcodeError::EmptyInput));
    assert_eq!(t.decode(" \t ").err(), Some(TapcodeError::EmptyInput));
}

#[test]
fn decode_rejects_odd_token_count() {
    let t = default_grid();
    assert_eq!(
        t.decode(". .. .").err(),
        Some(TapcodeError::MalformedTapSequence)
    );
    assert_eq!(t.decode(".").err(), Some(TapcodeError::MalformedTapSequence));
    // The odd word may come after a valid one.
    assert_eq!(
        t.decode(". .|. .. .").err(),
        Some(TapcodeError::MalformedTapSequence)
    );
}

#[test]
fn decode_rejects_out_of_range_coordinates() {
    let t = default_grid();
    assert_eq!(
        t.decode("...... .").err(),
        Some(TapcodeError::InvalidCoordinates)
    );
    assert_eq!(
        t.decode(". ......").err(),
        Some(TapcodeError::InvalidCoordinates)
    );
}

#[test]
fn decode_goes_by_token_length_not_content() {
    // Coordinates come from token lengths alone, whatever characters the
    // tokens hold.
    let t = default_grid();
    assert_eq!(t.decode("xxxx yyy").unwrap(), "s");
}

#[test]
fn decode_word_separators() {
    let t = default_grid();
    assert_eq!(t.decode(". .|. ..").unwrap(), "a b");
    // A lone separator decodes two empty words to a trimmed empty string.
    assert_eq!(t.decode("|").unwrap(), "");
}

#[test]
fn round_trip_single_word() {
    let t = default_grid();
    let message = "hello";
    let code = t.encode(message).unwrap();
    assert_eq!(t.decode(&code).unwrap(), message);
}

#[test]
fn round_trip_multiple_words() {
    let t = default_grid();
    let message = "the quick brown fox";
    let code = t.encode(message).unwrap();
    assert_eq!(t.decode(&code).unwrap(), message);
}

#[test]
fn round_trip_every_grid_character() {
    let t = default_grid();
    for c in DEFAULT_ALPHABET.chars() {
        let message = c.to_string();
        let code = t.encode(&message).unwrap();
        assert_eq!(t.decode(&code).unwrap(), message, "character {c}");
    }
}

#[test]
fn round_trip_with_duplicate_alphabet_characters() {
    // Duplicates are accepted silently; encode uses the first occurrence,
    // so the round trip still returns the message.
    let t = Tapcode::new("aacdefghiklmnopqrstuvwxyz", '.').unwrap();
    let code = t.encode("ad a").unwrap();
    assert_eq!(t.decode(&code).unwrap(), "ad a");
}

#[test]
fn grid_file_content_length_check() {
    assert!(check_grid_file_content(DEFAULT_ALPHABET).is_ok());
    assert_eq!(
        check_grid_file_content("short").err(),
        Some(TapcodeError::InvalidGridFileLength)
    );
    assert_eq!(
        check_grid_file_content("").err(),
        Some(TapcodeError::InvalidGridFileLength)
    );
}

#[test]
fn grid_file_round_trip_reconstructs_equivalent_grid() {
    let t = Tapcode::new("zyxwvutsrqponmlkihgfedcba", '.').unwrap();
    let saved = t.grid_string();
    assert_eq!(saved.chars().count(), 25);
    assert!(check_grid_file_content(&saved).is_ok());
    let reloaded = Tapcode::new(&saved, t.tap_symbol()).unwrap();
    assert_eq!(reloaded.grid_string(), t.grid_string());
    for c in "zyxa".chars() {
        let message = c.to_string();
        assert_eq!(
            reloaded.encode(&message).unwrap(),
            t.encode(&message).unwrap()
        );
    }
    let code = t.encode("codes").unwrap();
    assert_eq!(reloaded.decode(&code).unwrap(), "codes");
}

#[test]
fn grid_string_is_row_major_content() {
    let t = default_grid();
    assert_eq!(t.grid_string(), DEFAULT_ALPHABET);
}

#[test]
fn error_messages_match_the_cli_texts() {
    assert_eq!(
        TapcodeError::InvalidAlphabetLength.message(),
        "Alphabet must contain exactly 25 characters."
    );
    assert_eq!(TapcodeError::EmptyMessage.message(), "Message cannot be empty.");
    assert_eq!(
        TapcodeError::EmptyInput.message(),
        "Tapcode input cannot be empty."
    );
    assert_eq!(
        TapcodeError::CharacterNotInGrid.message(),
        "Message contains characters not in the grid."
    );
    assert_eq!(
        TapcodeError::MalformedTapSequence.message(),
        "Invalid Tapcode input."
    );
    assert_eq!(
        TapcodeError::InvalidCoordinates.message(),
        "Invalid Tapcode coordinates."
    );
    assert_eq!(
        TapcodeError::InvalidGridFileLength.message(),
        "Grid file must contain exactly 25 characters."
    );
    assert_eq!(
        TapcodeError::GridFileUnreadable.message(),
        "Could not read grid file. Ensure it exists and is accessible."
    );
}

#[test]
fn encode_trims_trailing_whitespace_only_at_the_end() {
    let t = default_grid();
    // A trailing space in the message becomes a trailing separator, which
    // is not whitespace and survives trimming.
    assert_eq!(t.encode("a ").unwrap(), ". . |");
    assert_eq!(t.encode(" a").unwrap(), "|. .");
}
