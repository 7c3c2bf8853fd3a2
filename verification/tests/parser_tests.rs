use guitar_tab_generator::arrangement::Line;
use guitar_tab_generator::guitar::{create_string_tuning, std_tuning_open_pitches};
use guitar_tab_generator::parser::{
    consecutive_slices, create_string_tuning_offset, get_tuning_names, parse_line, parse_lines,
    parse_measure_break, parse_rest, parse_tuning, remove_comments,
};
use guitar_tab_generator::pitch::Pitch;

fn chars(s: &str) -> Vec<char> {
    s.chars().collect()
}

#[test]
fn standard_tuning() {
    assert_eq!(parse_tuning("standard"), [0, 0, 0, 0, 0, 0]);
}

#[test]
fn open_g_tuning() {
    assert_eq!(parse_tuning("openg"), [-2, 0, 0, 0, -2, -2]);
}

#[test]
fn dropd_tuning() {
    assert_eq!(parse_tuning("dropd"), [-2, 0, 0, 0, 0, 0]);
}

#[test]
fn dropc_tuning() {
    assert_eq!(parse_tuning("dropc"), [-4, -2, -2, -2, -2, -2]);
}

#[test]
fn dadgad_tuning() {
    assert_eq!(parse_tuning("dadgad"), [-2, 0, 0, 0, -2, -2]);
}

#[test]
fn unknown_tuning() {
    assert_eq!(parse_tuning("unknown_tuning"), [0, 0, 0, 0, 0, 0]);
}

#[test]
fn tuning_names_listed() {
    let names = get_tuning_names();
    assert_eq!(
        names,
        vec!["OpenG", "OpenD", "C6", "Dsus4", "DropD", "DropC", "OpenC", "DropB", "OpenE"]
    );
}

#[test]
fn no_offset() {
    assert_eq!(
        create_string_tuning_offset([0, 0, 0, 0, 0, 0]),
        create_string_tuning(&std_tuning_open_pitches())
    );
}

#[test]
fn single_offset() {
    assert_eq!(
        create_string_tuning_offset([-2, 0, 0, 0, 0, 0]),
        create_string_tuning(&vec![
            Pitch::D4,
            Pitch::B3,
            Pitch::G3,
            Pitch::D3,
            Pitch::A2,
            Pitch::E2,
        ])
    );
}

#[test]
fn random_offsets() {
    assert_eq!(
        create_string_tuning_offset([2, -1, 3, 0, -2, 1]),
        create_string_tuning(&vec![
            Pitch::FSharpGFlat4,
            Pitch::ASharpBFlat3,
            Pitch::ASharpBFlat3,
            Pitch::D3,
            Pitch::G2,
            Pitch::F2,
        ])
    );
}

#[test]
fn parser_valid() {
    let input = "A3\nE2// Comment\n\nG4BB2G4\n-\nE4".to_owned();
    let expected = vec![
        Line::Playable(vec![Pitch::A3]),
        Line::Playable(vec![Pitch::E2]),
        Line::Rest,
        Line::Playable(vec![Pitch::G4, Pitch::ASharpBFlat2, Pitch::G4]),
        Line::MeasureBreak,
        Line::Playable(vec![Pitch::E4]),
    ];
    assert_eq!(parse_lines(input).unwrap(), expected);
}

#[test]
fn parser_invalid() {
    let input = "A3xyz\nE2\n\nG4BB.2\n-\nE4".to_owned();
    let error = parse_lines(input).unwrap_err();
    assert_eq!(
        error.message(),
        "Input 'xyz' on line 1 could not be parsed into a pitch.\nInput 'BB.2' on line 4 could not be parsed into a pitch."
    );
}

#[test]
fn empty() {
    assert_eq!(parse_line(0, &chars("")).unwrap(), Line::Rest);
}

#[test]
fn only_comment() {
    assert_eq!(parse_line(0, &chars("  // Long comment.... ")).unwrap(), Line::Rest);
}

#[test]
fn measure_break() {
    assert_eq!(parse_line(0, &chars("    --    ")).unwrap(), Line::MeasureBreak);
    assert_eq!(parse_line(0, &chars("- //comment")).unwrap(), Line::MeasureBreak);
}

#[test]
fn valid_pitch() {
    let expected = Line::Playable(vec![Pitch::GSharpAFlat2, Pitch::A4, Pitch::E3, Pitch::G2]);
    assert_eq!(parse_line(123, &chars("    G#2A4  E3 G2 ")).unwrap(), expected);
    assert_eq!(parse_line(123, &chars("G#2A4E3 G2// Comment")).unwrap(), expected);
}

#[test]
fn test_parse_line_invalid_input() {
    let error = parse_line(4, &chars("  Invalid Text  ")).unwrap_err();
    assert_eq!(
        error.message(),
        "Input 'InvalidText' on line 5 could not be parsed into a pitch."
    );
}

#[test]
fn no_comment() {
    assert_eq!(remove_comments(&chars("Hello, World!")), chars("Hello, World!"));
    assert_eq!(remove_comments(&chars("B3C1")), chars("B3C1"));
}

#[test]
fn single_comment() {
    assert_eq!(
        remove_comments(&chars("Hello, World! // This is a comment")),
        chars("Hello, World! ")
    );
}

#[test]
fn multiple_comments() {
    assert_eq!(
        remove_comments(&chars("Hello, // Comment 1\nWorld! // Comment 2")),
        chars("Hello, ")
    );
}

#[test]
fn comment_at_start() {
    assert_eq!(remove_comments(&chars("// Comment at the start")), chars(""));
}

#[test]
fn parser_empty_input() {
    assert_eq!(parse_rest(&chars("")), Some(Line::Rest));
}

#[test]
fn pitch_input() {
    assert_eq!(parse_rest(&chars("G7")), None);
}

#[test]
fn measure_break_dash() {
    assert_eq!(parse_measure_break(&chars("-")), Some(Line::MeasureBreak));
}

#[test]
fn measure_break_en_dash() {
    assert_eq!(parse_measure_break(&chars("–")), Some(Line::MeasureBreak));
}

#[test]
fn measure_break_em_dash() {
    assert_eq!(parse_measure_break(&chars("—")), Some(Line::MeasureBreak));
}

#[test]
fn measure_break_empty_input() {
    assert_eq!(parse_measure_break(&chars("")), None);
}

#[test]
fn no_measure_break() {
    assert_eq!(parse_measure_break(&chars("ABCDEF")), None);
}

#[test]
fn whitespace_input() {
    assert_eq!(parse_measure_break(&chars(" ")), None);
}

#[test]
fn multiple_dashes() {
    assert_eq!(parse_measure_break(&chars("---")), Some(Line::MeasureBreak));
}

#[test]
fn multiple_en_dashes() {
    assert_eq!(parse_measure_break(&chars("–––")), Some(Line::MeasureBreak));
}

#[test]
fn mixed_dashes() {
    assert_eq!(parse_measure_break(&chars("-–—")), None);
}

#[test]
fn single_natural_pitch() {
    assert_eq!(parse_line(0, &chars("A0")).unwrap(), Line::Playable(vec![Pitch::A0]));
    assert_eq!(parse_line(0, &chars("E6")).unwrap(), Line::Playable(vec![Pitch::E6]));
}

#[test]
fn single_sharp_pitch() {
    assert_eq!(
        parse_line(0, &chars("D#2")).unwrap(),
        Line::Playable(vec![Pitch::DSharpEFlat2])
    );
}

#[test]
fn single_flat_pitch() {
    assert_eq!(
        parse_line(0, &chars("Db2")).unwrap(),
        Line::Playable(vec![Pitch::CSharpDFlat2])
    );
    assert_eq!(
        parse_line(0, &chars("Bb2")).unwrap(),
        Line::Playable(vec![Pitch::ASharpBFlat2])
    );
}

#[test]
fn case_insensitivity() {
    assert_eq!(parse_line(0, &chars("A3")).unwrap(), Line::Playable(vec![Pitch::A3]));
    assert_eq!(parse_line(0, &chars("a3")).unwrap(), Line::Playable(vec![Pitch::A3]));
    assert_eq!(
        parse_line(0, &chars("Bb2")).unwrap(),
        Line::Playable(vec![Pitch::ASharpBFlat2])
    );
    assert_eq!(
        parse_line(0, &chars("bB2")).unwrap(),
        Line::Playable(vec![Pitch::ASharpBFlat2])
    );
    assert_eq!(
        parse_line(0, &chars("bb2")).unwrap(),
        Line::Playable(vec![Pitch::ASharpBFlat2])
    );
}

#[test]
fn multiple_pitches() {
    assert_eq!(
        parse_line(0, &chars("C3G2A#1F8")).unwrap(),
        Line::Playable(vec![Pitch::C3, Pitch::G2, Pitch::ASharpBFlat1, Pitch::F8])
    );
}

#[test]
fn invalid_typo() {
    let error = parse_line(12, &chars("ZA2G#444B3")).unwrap_err();
    assert_eq!(
        error.message(),
        "Input 'Z' on line 13 could not be parsed into a pitch.\nInput '44' on line 13 could not be parsed into a pitch."
    );
}

#[test]
fn invalid_pitch() {
    let error = parse_line(28, &chars("Fb3")).unwrap_err();
    assert_eq!(error.message(), "Input 'Fb3' on line 29 could not be parsed into a pitch.");
}

#[test]
fn invalid_random() {
    let error = parse_line(0, &chars("baS3Q-hNr")).unwrap_err();
    assert_eq!(
        error.message(),
        "Input 'baS3Q-hNr' on line 1 could not be parsed into a pitch."
    );
}

#[test]
fn parser_simple() {
    let flat_nums = vec![1, 2, 3, 4];
    assert_eq!(consecutive_slices(&flat_nums), vec![vec![1, 2, 3, 4]]);
}

#[test]
fn parser_complex() {
    let flat_nums = vec![1, 2, 3, 4, 113, 115, 116, 6, 7, 8];
    assert_eq!(
        consecutive_slices(&flat_nums),
        vec![vec![1, 2, 3, 4], vec![113], vec![115, 116], vec![6, 7, 8]]
    );
}

#[test]
fn no_consecutive() {
    let flat_nums = vec![95, 65, 74, 96, 68, 29, 34, 32];
    assert_eq!(
        consecutive_slices(&flat_nums),
        vec![
            vec![95],
            vec![65],
            vec![74],
            vec![96],
            vec![68],
            vec![29],
            vec![34],
            vec![32],
        ]
    );
}
