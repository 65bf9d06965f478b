//! The preedit side of the input-method engine's scenarios (F-key
//! conversions, mode toggles, romaji revive). The engine turns keys into
//! buffer edits: a completed romaji syllable becomes one unit (raw romaji,
//! kana), a literal key (alphabet mode, digits, a consonant that could not
//! combine) becomes a unit with raw == kana, and Backspace removes the
//! character before the cursor. Each test below replays the buffer edits of
//! its scenario and checks the preedit (and, where the scenario relies on it,
//! the raw reading) that the scenario expects.
use karukan_im::InputBuffer;

/// "a", "i" typed in hiragana mode.
fn reading_ai() -> InputBuffer {
    let mut b = InputBuffer::new();
    b.insert_unit("a", "あ");
    b.insert_unit("i", "い");
    b
}

/// Shift+I, s, o typed in alphabet mode: literal characters.
fn reading_iso() -> InputBuffer {
    let mut b = InputBuffer::new();
    b.insert("I");
    b.insert("s");
    b.insert("o");
    b
}

/// Buffer step of the engine scenario: the reading that F7 reshapes to katakana (the reshaping itself is engine logic, not buffer logic).
#[test]
fn test_f7_converts_composing_reading_to_full_katakana() {
    // The reading that F7 reshapes: "あい", typed as "ai".
    let b = reading_ai();
    assert_eq!(b.text(), "あい");
    assert_eq!(b.raw_text(), "ai");
    assert_eq!(b.cursor_pos, 2);
}

/// Buffer step of the engine scenario: the reading that F8 reshapes to half-width katakana (the reshaping is engine logic).
#[test]
fn test_f8_converts_to_half_width_katakana() {
    let b = reading_ai();
    assert_eq!(b.text(), "あい");
    assert_eq!(b.raw_text(), "ai");
}

/// Buffer step of the engine scenario: the preserved reading that F6 reshapes back to hiragana (the reshaping is engine logic).
#[test]
fn test_f6_reshapes_reading_back_to_hiragana() {
    // F-keys reshape the preserved reading: reading it twice gives the same
    // text, and the buffer is not changed by reading it.
    let b = reading_ai();
    assert_eq!(b.text(), "あい");
    assert_eq!(b.text(), "あい");
    assert_eq!(b.cursor_pos, 2);
}

/// Buffer step of the engine scenario: the reading that successive F-keys reshape (the conversion state is engine logic).
#[test]
fn test_f_keys_work_from_conversion_state() {
    let b = reading_ai();
    assert_eq!(b.text(), "あい");
    assert_eq!(b.raw_text(), "ai");
}

/// Buffer step of the engine scenario: the reading behind the F7 candidate list, whose raw keystrokes differ from the kana (the candidate list is engine logic).
#[test]
fn test_f7_candidate_list_holds_all_forms_navigable_by_space() {
    // For a kana reading the raw keystrokes are romaji, not the kana itself.
    let b = reading_ai();
    assert_eq!(b.text(), "あい");
    assert_ne!(b.raw_text(), b.text());
}

/// Buffer step of the engine scenario: the alphabet reading that F9 widens (the widening and the commit are engine logic).
#[test]
fn test_f9_converts_alphabet_reading_to_full_width_then_commits() {
    let b = reading_iso();
    assert_eq!(b.text(), "Iso");
    assert_eq!(b.raw_text(), "Iso");
    assert_eq!(b.cursor_pos, 3);
}

/// Buffer step of the engine scenario: the alphabet reading that F10 reshapes (the reshaping is engine logic).
#[test]
fn test_f10_reshapes_reading_to_half_width_alnum() {
    // F10 reshapes the reading ("Iso"), which literal input keeps verbatim.
    let b = reading_iso();
    assert_eq!(b.raw_text(), "Iso");
    assert_eq!(b.text(), "Iso");
}

/// Buffer step of the engine scenario: the empty buffer on which an F-key has nothing to convert (whether the key is consumed is engine logic).
#[test]
fn test_f_key_in_empty_state_is_not_consumed() {
    // Nothing to convert: the buffer is empty.
    let b = InputBuffer::new();
    assert_eq!(b.text(), "");
    assert_eq!(b.raw_text(), "");
}

/// Buffer step of the engine scenario: the latin reading that Escape restores verbatim (the conversion state is engine logic).
#[test]
fn test_escape_after_f_key_on_consonant_ending_alphabet_reading() {
    // The latin reading "Jis" is kept verbatim (not "Jiss").
    let mut b = InputBuffer::new();
    b.insert("J");
    b.insert("i");
    b.insert("s");
    assert_eq!(b.text(), "Jis");
    assert_eq!(b.raw_text(), "Jis");
    assert_eq!(b.cursor_pos, 3);
}

/// Buffer step of the engine scenario: the edits before and after the mode toggle (the toggle itself is engine logic).
#[test]
fn test_mode_toggle_key_switches_alphabet_to_hiragana() {
    // "A" typed in alphabet mode, then "a" in hiragana mode after the toggle.
    let mut b = InputBuffer::new();
    b.insert("A");
    b.insert_unit("a", "あ");
    assert_eq!(b.text(), "Aあ");
    assert_eq!(b.raw_text(), "Aa");
}

/// Buffer step of the engine scenario: the katakana text baked into the buffer (the mode change is engine logic).
#[test]
fn test_hiragana_key_switches_katakana_to_hiragana() {
    // Baking the katakana in: the reading is replaced by literal "アイ".
    let mut b = reading_ai();
    b.clear();
    b.insert("アイ");
    assert_eq!(b.text(), "アイ");
    assert_eq!(b.raw_text(), "アイ");
    assert_eq!(b.cursor_pos, 2);
}

/// Buffer step of the engine scenario: the untouched empty buffer (the key handling is engine logic).
#[test]
fn test_hiragana_key_noop_in_hiragana_is_consumed() {
    let b = InputBuffer::new();
    assert_eq!(b.text(), "");
    assert_eq!(b.cursor_pos, 0);
}

/// Buffer step of the engine scenario: the hiragana unit typed after the ignored toggle (the key handling is engine logic).
#[test]
fn test_mode_toggle_key_noop_in_hiragana() {
    let mut b = InputBuffer::new();
    b.insert_unit("a", "あ");
    assert_eq!(b.text(), "あ");
}

/// Buffer step of the engine scenario: the literal and romaji edits around the toggle (the toggle itself is engine logic).
#[test]
fn test_mode_toggle_key_during_alphabet_input() {
    let mut b = InputBuffer::new();
    b.insert("A");
    b.insert("b");
    assert_eq!(b.text(), "Ab");
    b.insert_unit("ka", "か");
    assert_eq!(b.text(), "Abか");
    assert_eq!(b.raw_text(), "Abka");
}

/// Buffer step of the engine scenario: the literal edit before Super_R (the mode change is engine logic).
#[test]
fn test_super_r_also_switches_alphabet_to_hiragana() {
    let mut b = InputBuffer::new();
    b.insert("A");
    assert_eq!(b.text(), "A");
    assert_eq!(b.cursor_pos, 1);
}

/// Buffer step of the engine scenario: the literal edit before Meta_R (the mode change is engine logic).
#[test]
fn test_meta_r_also_switches_alphabet_to_hiragana() {
    let mut b = InputBuffer::new();
    b.insert("A");
    assert_eq!(b.raw_text(), "A");
    assert_eq!(b.cursor_pos, 1);
}

/// Buffer step of the engine scenario: the bake, backspace and revive edits (deciding to revive is engine logic).
#[test]
fn test_stranded_consonant_combines_with_next_vowel() {
    // `kpa`: the un-combinable `k` is baked in as a literal, then `pa` → ぱ.
    let mut b = InputBuffer::new();
    b.insert("k");
    b.insert_unit("pa", "ぱ");
    assert_eq!(b.text(), "kぱ");

    // Backspace deletes ぱ, leaving the bare `k`.
    assert_eq!(b.remove_char_before_cursor(), Some('ぱ'));
    assert_eq!(b.text(), "k");
    assert_eq!(b.cursor_pos, 1);

    // The revived `k` is taken back and completed with `a` → か.
    assert_eq!(b.remove_char_before_cursor(), Some('k'));
    b.insert_unit("ka", "か");
    assert_eq!(b.text(), "か");
    assert_eq!(b.raw_text(), "ka");
}

/// Buffer step of the engine scenario: the bake, backspace and youon edits (deciding to revive is engine logic).
#[test]
fn test_stranded_consonant_revives_into_youon_prefix() {
    let mut b = InputBuffer::new();
    b.insert("k");
    b.insert_unit("pa", "ぱ");
    assert_eq!(b.remove_char_before_cursor(), Some('ぱ'));
    assert_eq!(b.text(), "k");

    // `k`, `y`, `a` → きゃ, one atomic unit.
    assert_eq!(b.remove_char_before_cursor(), Some('k'));
    b.insert_unit("kya", "きゃ");
    assert_eq!(b.text(), "きゃ");
    assert_eq!(b.cursor_pos, 2);
}

/// Buffer step of the engine scenario: ordinary romaji units (romaji conversion is engine logic).
#[test]
fn test_normal_typing_is_unaffected_by_revive() {
    let mut b = InputBuffer::new();
    b.insert_unit("ka", "か");
    assert_eq!(b.text(), "か");

    let mut b = InputBuffer::new();
    b.insert_unit("kya", "きゃ");
    assert_eq!(b.text(), "きゃ");

    let mut b = InputBuffer::new();
    b.insert_unit("wa", "わ");
    b.insert_unit("ta", "た");
    b.insert_unit("shi", "し");
    assert_eq!(b.text(), "わたし");
    assert_eq!(b.raw_text(), "watashi");
}

/// Buffer step of the engine scenario: a literal digit followed by a romaji unit (romaji conversion is engine logic).
#[test]
fn test_revive_does_not_disturb_digits() {
    let mut b = InputBuffer::new();
    b.insert("2");
    b.insert_unit("ka", "か");
    assert_eq!(b.text(), "2か");
    assert_eq!(b.raw_text(), "2ka");
}
