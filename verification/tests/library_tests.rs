use guitar_tab_generator::arrangement::{create_arrangements, Line};
use guitar_tab_generator::guitar::{create_string_tuning, std_tuning_open_pitches, Guitar};
use guitar_tab_generator::pitch::Pitch;
use guitar_tab_generator::string_number::StringNumber;
use guitar_tab_generator::{wrapper_create_arrangements, Composition, CompositionInput};

#[test]
fn pitch_valid_simple() {
    assert_eq!(Pitch::E2.plain_text(), "E2");
    assert_eq!(Pitch::DSharpEFlat3.plain_text(), "D♯E♭3");
}

#[test]
fn pitch_indexes_run_over_all_semitones() {
    assert_eq!(Pitch::C0.index(), 0);
    assert_eq!(Pitch::E2.index(), 28);
    assert_eq!(Pitch::E4.index(), 52);
    assert_eq!(Pitch::B9.index(), 119);
    assert_eq!(Pitch::from_index(52), Some(Pitch::E4));
    assert_eq!(Pitch::from_index(120), None);
    assert_eq!(Pitch::E4.plus_offset(-24), Some(Pitch::E2));
    assert_eq!(Pitch::E4.plus_offset(100), None);
}

#[test]
fn string_number_valid_simple() {
    assert!(StringNumber::new(1).is_ok());
}

#[test]
fn invalid_zero() {
    let expected_error_msg = "A guitar cannot have a string number of zero (0). Guitar string numbering commences at one (1).";
    let error = StringNumber::new(0).unwrap_err();
    assert_eq!(error.message(), expected_error_msg);
}

#[test]
fn invalid_too_high() {
    let expected_error_msg = "The string number (15) is too high. The maximum is 12.";
    let error = StringNumber::new(15).unwrap_err();
    assert_eq!(error.message(), expected_error_msg);
}

#[test]
fn strings_1_to_6() {
    assert_eq!(StringNumber::new(1).unwrap().describe(), "1_e");
    assert_eq!(StringNumber::new(2).unwrap().describe(), "2_B");
    assert_eq!(StringNumber::new(3).unwrap().describe(), "3_G");
    assert_eq!(StringNumber::new(4).unwrap().describe(), "4_D");
    assert_eq!(StringNumber::new(5).unwrap().describe(), "5_A");
    assert_eq!(StringNumber::new(6).unwrap().describe(), "6_E");
}

#[test]
fn string_greater_than_6() {
    assert_eq!(StringNumber::new(8).unwrap().describe(), "8");
}

#[test]
fn test_create_guitar_compositions_valid_input() {
    let composition_input = CompositionInput {
        pitches: "E2\nA2\nD3\n\nG3\nB3\n---\nE4".to_owned(),
        tuning_name: "standard".to_string(),
        guitar_num_frets: 20,
        guitar_capo: 0,
        num_arrangements: 1,
        width: 30,
        padding: 2,
        playback_index: Some(3),
    };

    let compositions = wrapper_create_arrangements(composition_input).unwrap();
    let expected_composition = Composition {
        tab: "           ▼\n--------------------|--0------\n-----------------0--|---------\n--------------0-----|---------\n--------0-----------|---------\n-----0--------------|---------\n--0-----------------|---------\n           ▲\n".to_owned(),
        pitches: vec![
            vec!["E2".to_owned()],
            vec!["A2".to_owned()],
            vec!["D3".to_owned()],
            vec!["REST".to_owned()],
            vec!["G3".to_owned()],
            vec!["B3".to_owned()],
            vec!["MEASURE_BREAK".to_owned()],
            vec!["E4".to_owned()],
        ],
        max_fret_span: 0,
    };

    assert_eq!(compositions[0], expected_composition);
}

#[test]
fn test_error() {
    let composition_input = CompositionInput {
        pitches: "E2\nA2\nD3\n???\nG3\nB3\nE4".to_owned(),
        tuning_name: "standard".to_string(),
        guitar_num_frets: 20,
        guitar_capo: 0,
        num_arrangements: 1,
        width: 20,
        padding: 2,
        playback_index: Some(3),
    };
    assert!(wrapper_create_arrangements(composition_input).is_err());
}

#[test]
fn wrapper_is_deterministic() {
    let make_input = || CompositionInput {
        pitches: "E4\nG3B3\n-\nD4".to_owned(),
        tuning_name: "standard".to_string(),
        guitar_num_frets: 18,
        guitar_capo: 0,
        num_arrangements: 3,
        width: 40,
        padding: 2,
        playback_index: None,
    };
    let first = wrapper_create_arrangements(make_input()).unwrap();
    let second = wrapper_create_arrangements(make_input()).unwrap();
    assert_eq!(first, second);
}

#[test]
fn capo_shifts_tuning() {
    // With a capo at fret 2, the open first string sounds F#4, so E4 is gone
    // from string 1 and the easiest fingering moves to the open pitch itself.
    let guitar =
        Guitar::new(create_string_tuning(&std_tuning_open_pitches()), 18, 2).unwrap();
    let input = vec![Line::Playable(vec![Pitch::FSharpGFlat4])];
    let arrangements = create_arrangements(&guitar, input, 1).unwrap();
    assert_eq!(arrangements[0].difficulty, 0);
    match &arrangements[0].lines[0] {
        Line::Playable(fs) => {
            assert_eq!(fs[0].fret, 0);
            assert_eq!(fs[0].pitch, Pitch::FSharpGFlat4);
        },
        other => panic!("expected a playable beat, got {:?}", other),
    }
}
