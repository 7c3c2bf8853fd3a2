use guitar_tab_generator::guitar::{
    check_capo_number, check_fret_number, create_string_range, create_string_tuning,
    generate_pitch_fingerings, std_tuning_open_pitches, Guitar, PitchFingering,
};
use guitar_tab_generator::pitch::Pitch;
use guitar_tab_generator::string_number::StringNumber;

fn sn(n: u8) -> StringNumber {
    StringNumber::new(n).unwrap()
}

#[test]
fn guitar_simple() {
    let pitch_fingering = PitchFingering {
        pitch: Pitch::ASharpBFlat4,
        string_number: sn(2),
        fret: 3,
    };
    assert_eq!(pitch_fingering.describe(), "A♯B♭4 | 2_B => 3");
}

#[test]
fn guitar_valid_simple() {
    let tuning = create_string_tuning(&std_tuning_open_pitches());
    const NUM_FRETS: u8 = 3;
    let expected_range = vec![Pitch::E2, Pitch::F2, Pitch::FSharpGFlat2, Pitch::G2, Pitch::A2, Pitch::ASharpBFlat2, Pitch::B2, Pitch::C3, Pitch::D3, Pitch::DSharpEFlat3, Pitch::E3, Pitch::F3, Pitch::G3, Pitch::GSharpAFlat3, Pitch::A3, Pitch::ASharpBFlat3, Pitch::B3, Pitch::C4, Pitch::CSharpDFlat4, Pitch::D4, Pitch::E4, Pitch::F4, Pitch::FSharpGFlat4, Pitch::G4];
    let expected_string_ranges = vec![
        (sn(1), vec![Pitch::E4, Pitch::F4, Pitch::FSharpGFlat4, Pitch::G4]),
        (sn(2), vec![Pitch::B3, Pitch::C4, Pitch::CSharpDFlat4, Pitch::D4]),
        (sn(3), vec![Pitch::G3, Pitch::GSharpAFlat3, Pitch::A3, Pitch::ASharpBFlat3]),
        (sn(4), vec![Pitch::D3, Pitch::DSharpEFlat3, Pitch::E3, Pitch::F3]),
        (sn(5), vec![Pitch::A2, Pitch::ASharpBFlat2, Pitch::B2, Pitch::C3]),
        (sn(6), vec![Pitch::E2, Pitch::F2, Pitch::FSharpGFlat2, Pitch::G2]),
    ];
    let guitar = Guitar::new(tuning.clone(), NUM_FRETS, 0).unwrap();
    let expected_guitar = Guitar {
        tuning,
        num_frets: NUM_FRETS,
        range: expected_range,
        string_ranges: expected_string_ranges,
    };
    assert_eq!(guitar, expected_guitar);
}

#[test]
fn guitar_valid_normal() {
    let tuning = create_string_tuning(&std_tuning_open_pitches());
    const NUM_FRETS: u8 = 18;
    let expected_range = vec![Pitch::E2, Pitch::F2, Pitch::FSharpGFlat2, Pitch::G2, Pitch::GSharpAFlat2, Pitch::A2, Pitch::ASharpBFlat2, Pitch::B2, Pitch::C3, Pitch::CSharpDFlat3, Pitch::D3, Pitch::DSharpEFlat3, Pitch::E3, Pitch::F3, Pitch::FSharpGFlat3, Pitch::G3, Pitch::GSharpAFlat3, Pitch::A3, Pitch::ASharpBFlat3, Pitch::B3, Pitch::C4, Pitch::CSharpDFlat4, Pitch::D4, Pitch::DSharpEFlat4, Pitch::E4, Pitch::F4, Pitch::FSharpGFlat4, Pitch::G4, Pitch::GSharpAFlat4, Pitch::A4, Pitch::ASharpBFlat4, Pitch::B4, Pitch::C5, Pitch::CSharpDFlat5, Pitch::D5, Pitch::DSharpEFlat5, Pitch::E5, Pitch::F5, Pitch::FSharpGFlat5, Pitch::G5, Pitch::GSharpAFlat5, Pitch::A5, Pitch::ASharpBFlat5];
    let expected_string_ranges = vec![
        (sn(1), vec![Pitch::E4, Pitch::F4, Pitch::FSharpGFlat4, Pitch::G4, Pitch::GSharpAFlat4, Pitch::A4, Pitch::ASharpBFlat4, Pitch::B4, Pitch::C5, Pitch::CSharpDFlat5, Pitch::D5, Pitch::DSharpEFlat5, Pitch::E5, Pitch::F5, Pitch::FSharpGFlat5, Pitch::G5, Pitch::GSharpAFlat5, Pitch::A5, Pitch::ASharpBFlat5]),
        (sn(2), vec![Pitch::B3, Pitch::C4, Pitch::CSharpDFlat4, Pitch::D4, Pitch::DSharpEFlat4, Pitch::E4, Pitch::F4, Pitch::FSharpGFlat4, Pitch::G4, Pitch::GSharpAFlat4, Pitch::A4, Pitch::ASharpBFlat4, Pitch::B4, Pitch::C5, Pitch::CSharpDFlat5, Pitch::D5, Pitch::DSharpEFlat5, Pitch::E5, Pitch::F5]),
        (sn(3), vec![Pitch::G3, Pitch::GSharpAFlat3, Pitch::A3, Pitch::ASharpBFlat3, Pitch::B3, Pitch::C4, Pitch::CSharpDFlat4, Pitch::D4, Pitch::DSharpEFlat4, Pitch::E4, Pitch::F4, Pitch::FSharpGFlat4, Pitch::G4, Pitch::GSharpAFlat4, Pitch::A4, Pitch::ASharpBFlat4, Pitch::B4, Pitch::C5, Pitch::CSharpDFlat5]),
        (sn(4), vec![Pitch::D3, Pitch::DSharpEFlat3, Pitch::E3, Pitch::F3, Pitch::FSharpGFlat3, Pitch::G3, Pitch::GSharpAFlat3, Pitch::A3, Pitch::ASharpBFlat3, Pitch::B3, Pitch::C4, Pitch::CSharpDFlat4, Pitch::D4, Pitch::DSharpEFlat4, Pitch::E4, Pitch::F4, Pitch::FSharpGFlat4, Pitch::G4, Pitch::GSharpAFlat4]),
        (sn(5), vec![Pitch::A2, Pitch::ASharpBFlat2, Pitch::B2, Pitch::C3, Pitch::CSharpDFlat3, Pitch::D3, Pitch::DSharpEFlat3, Pitch::E3, Pitch::F3, Pitch::FSharpGFlat3, Pitch::G3, Pitch::GSharpAFlat3, Pitch::A3, Pitch::ASharpBFlat3, Pitch::B3, Pitch::C4, Pitch::CSharpDFlat4, Pitch::D4, Pitch::DSharpEFlat4]),
        (sn(6), vec![Pitch::E2, Pitch::F2, Pitch::FSharpGFlat2, Pitch::G2, Pitch::GSharpAFlat2, Pitch::A2, Pitch::ASharpBFlat2, Pitch::B2, Pitch::C3, Pitch::CSharpDFlat3, Pitch::D3, Pitch::DSharpEFlat3, Pitch::E3, Pitch::F3, Pitch::FSharpGFlat3, Pitch::G3, Pitch::GSharpAFlat3, Pitch::A3, Pitch::ASharpBFlat3]),
    ];
    let guitar = Guitar::new(tuning.clone(), NUM_FRETS, 0).unwrap();
    let expected_guitar = Guitar {
        tuning,
        num_frets: NUM_FRETS,
        range: expected_range,
        string_ranges: expected_string_ranges,
    };
    assert_eq!(guitar, expected_guitar);
}

#[test]
fn invalid_num_frets() {
    assert!(Guitar::new(create_string_tuning(&std_tuning_open_pitches()), 35, 0).is_err());
}

#[test]
fn guitar_valid() {
    assert!(check_fret_number(0).is_ok());
    assert!(check_fret_number(2).is_ok());
    assert!(check_fret_number(7).is_ok());
    assert!(check_fret_number(18).is_ok());
    assert!(check_fret_number(24).is_ok());
    assert!(check_fret_number(30).is_ok());
}

#[test]
fn guitar_invalid() {
    assert!(check_fret_number(31).is_err());
    assert!(check_fret_number(100).is_err());
}

#[test]
fn valid() {
    assert!(check_capo_number(0).is_ok());
    assert!(check_capo_number(2).is_ok());
    assert!(check_capo_number(5).is_ok());
    assert!(check_capo_number(8).is_ok());
}

#[test]
fn invalid() {
    assert!(check_capo_number(9).is_err());
    assert!(check_capo_number(12).is_err());
    assert!(check_capo_number(18).is_err());
    assert!(check_capo_number(27).is_err());
    assert!(check_capo_number(31).is_err());
    assert!(check_capo_number(100).is_err());
}

#[test]
fn string_range_valid() {
    assert_eq!(create_string_range(&Pitch::E2, 0).unwrap(), vec![Pitch::E2]);
    assert_eq!(
        create_string_range(&Pitch::E2, 3).unwrap(),
        vec![Pitch::E2, Pitch::F2, Pitch::FSharpGFlat2, Pitch::G2]
    );
    assert_eq!(
        create_string_range(&Pitch::E2, 12).unwrap(),
        vec![Pitch::E2, Pitch::F2, Pitch::FSharpGFlat2, Pitch::G2, Pitch::GSharpAFlat2, Pitch::A2, Pitch::ASharpBFlat2, Pitch::B2, Pitch::C3, Pitch::CSharpDFlat3, Pitch::D3, Pitch::DSharpEFlat3, Pitch::E3]
    );
}

#[test]
fn string_range_invalid() {
    let error = create_string_range(&Pitch::G9, 5).unwrap_err();
    let expected_error_msg = "Too many frets (5) for string starting at pitch G9. The highest pitch is B9, which would only exist at fret number 4.";
    assert_eq!(error.message(), expected_error_msg);
    let error = create_string_range(&Pitch::E2, 100).unwrap_err();
    let expected_error_msg = "Too many frets (100) for string starting at pitch E2. The highest pitch is B9, which would only exist at fret number 91.";
    assert_eq!(error.message(), expected_error_msg);
}

fn standard_string_ranges(num_frets: u8) -> Vec<(StringNumber, Vec<Pitch>)> {
    Guitar::new(create_string_tuning(&std_tuning_open_pitches()), num_frets, 0)
        .unwrap()
        .string_ranges
}

#[test]
fn valid_normal() {
    let string_ranges = standard_string_ranges(12);
    assert_eq!(
        generate_pitch_fingerings(&string_ranges, &Pitch::E2),
        vec![PitchFingering { pitch: Pitch::E2, string_number: sn(6), fret: 0 }]
    );
    assert_eq!(
        generate_pitch_fingerings(&string_ranges, &Pitch::D3),
        vec![
            PitchFingering { pitch: Pitch::D3, string_number: sn(4), fret: 0 },
            PitchFingering { pitch: Pitch::D3, string_number: sn(5), fret: 5 },
            PitchFingering { pitch: Pitch::D3, string_number: sn(6), fret: 10 },
        ]
    );
    assert_eq!(
        generate_pitch_fingerings(&string_ranges, &Pitch::CSharpDFlat4),
        vec![
            PitchFingering { pitch: Pitch::CSharpDFlat4, string_number: sn(2), fret: 2 },
            PitchFingering { pitch: Pitch::CSharpDFlat4, string_number: sn(3), fret: 6 },
            PitchFingering { pitch: Pitch::CSharpDFlat4, string_number: sn(4), fret: 11 },
        ]
    );
}

#[test]
fn pitch_fingerings_valid_simple() {
    let string_ranges = vec![
        (sn(1), create_string_range(&Pitch::G4, 12).unwrap()),
        (sn(2), create_string_range(&Pitch::DSharpEFlat4, 12).unwrap()),
    ];
    assert_eq!(
        generate_pitch_fingerings(&string_ranges, &Pitch::DSharpEFlat4),
        vec![PitchFingering { pitch: Pitch::DSharpEFlat4, string_number: sn(2), fret: 0 }]
    );
    assert_eq!(
        generate_pitch_fingerings(&string_ranges, &Pitch::ASharpBFlat4),
        vec![
            PitchFingering { pitch: Pitch::ASharpBFlat4, string_number: sn(1), fret: 3 },
            PitchFingering { pitch: Pitch::ASharpBFlat4, string_number: sn(2), fret: 7 },
        ]
    );
}

#[test]
fn valid_few_frets() {
    let string_ranges = standard_string_ranges(2);
    assert_eq!(
        generate_pitch_fingerings(&string_ranges, &Pitch::E3),
        vec![PitchFingering { pitch: Pitch::E3, string_number: sn(4), fret: 2 }]
    );
}

#[test]
fn valid_impossible_pitch() {
    let string_ranges = standard_string_ranges(12);
    assert_eq!(generate_pitch_fingerings(&string_ranges, &Pitch::D2), vec![]);
    assert_eq!(generate_pitch_fingerings(&string_ranges, &Pitch::F5), vec![]);
}

#[test]
fn fret_count_error_message() {
    let error =
        Guitar::new(create_string_tuning(&std_tuning_open_pitches()), 35, 0).unwrap_err();
    assert_eq!(error.message(), "Too many frets (35). The maximum is 30.");
}

#[test]
fn capo_error_message() {
    let error =
        Guitar::new(create_string_tuning(&std_tuning_open_pitches()), 18, 9).unwrap_err();
    assert_eq!(error.message(), "The capo fret (9) is too high. The maximum is 8.");
}
