use guitar_tab_generator::arrangement::Line;
use guitar_tab_generator::guitar::PitchFingering;
use guitar_tab_generator::pitch::Pitch;
use guitar_tab_generator::renderer::{
    calc_fret_width_max, line_index_of_sonorous_index, render_fret, render_line,
    render_string_groups, transpose, PlaybackIndicatorPosition,
};
use guitar_tab_generator::string_number::StringNumber;

fn pf(string: u8, fret: u8, pitch: Pitch) -> PitchFingering {
    PitchFingering { pitch, string_number: StringNumber::new(string).unwrap(), fret }
}

#[test]
fn empty_lines() {
    let lines: Vec<Line<Vec<PitchFingering>>> = vec![];
    assert_eq!(line_index_of_sonorous_index(&lines, 12), None);
}

#[test]
fn only_measure_breaks() {
    let lines: Vec<Line<Vec<PitchFingering>>> =
        vec![Line::MeasureBreak, Line::MeasureBreak, Line::MeasureBreak];
    assert_eq!(line_index_of_sonorous_index(&lines, 12), None);
}

fn get_lines() -> Vec<Line<Vec<PitchFingering>>> {
    let note = || Line::Playable(vec![pf(1, 6, Pitch::E4)]);
    vec![
        note(),
        note(),
        Line::Rest,
        note(),
        Line::MeasureBreak,
        note(),
        note(),
        note(),
    ]
}

#[test]
fn include_playable() {
    assert_eq!(line_index_of_sonorous_index(&get_lines(), 2), Some(2));
}

#[test]
fn include_rest() {
    assert_eq!(line_index_of_sonorous_index(&get_lines(), 3), Some(3));
}

#[test]
fn exclude_measure_break() {
    assert_eq!(line_index_of_sonorous_index(&get_lines(), 4), Some(5));
}

#[test]
fn renderer_measure_break() {
    assert_eq!(render_line(&Line::MeasureBreak, 6), vec!["|"; 6]);
}

#[test]
fn rest() {
    assert_eq!(render_line(&Line::Rest, 6), vec!["-"; 6]);
}

#[test]
fn playable_basic() {
    let pitch_fingerings = vec![pf(2, 2, Pitch::G4), pf(5, 13, Pitch::G4)];
    let expected_line_render = vec!["--", "-2", "--", "--", "13", "--"];
    assert_eq!(render_line(&Line::Playable(pitch_fingerings), 6), expected_line_render);
}

#[test]
fn playable_complex() {
    let pitch_fingerings = vec![
        pf(1, 9, Pitch::G4),
        pf(2, 0, Pitch::G4),
        pf(4, 8, Pitch::G4),
        pf(5, 10, Pitch::G4),
        pf(6, 0, Pitch::G4),
        pf(7, 11, Pitch::G4),
        pf(8, 12, Pitch::G4),
    ];
    let expected_line_render = vec!["-9", "-0", "--", "-8", "10", "-0", "11", "12"];
    assert_eq!(render_line(&Line::Playable(pitch_fingerings), 8), expected_line_render);
}

#[test]
fn one_digit_in_one_digit_max() {
    assert_eq!(render_fret(4, 1), "4");
}

#[test]
fn one_digit_in_two_digit_max() {
    assert_eq!(render_fret(3, 2), "-3");
}

#[test]
fn two_digit_in_two_digit_max() {
    assert_eq!(render_fret(12, 2), "12");
}

#[test]
fn fret_width_one() {
    let fingering = pf(1, 2, Pitch::G4);
    assert_eq!(calc_fret_width_max(&vec![fingering]), 1);
}

#[test]
fn fret_width_one_multiple_fingerings() {
    let fingerings = vec![pf(1, 0, Pitch::G4), pf(2, 2, Pitch::G4), pf(5, 8, Pitch::G4)];
    assert_eq!(calc_fret_width_max(&fingerings), 1);
}

#[test]
fn fret_width_two_multiple_fingerings() {
    let fingerings = vec![pf(1, 2, Pitch::G4), pf(2, 11, Pitch::G4), pf(4, 3, Pitch::G4)];
    assert_eq!(calc_fret_width_max(&fingerings), 2);
}

#[test]
fn test_transpose_2x2() {
    let input_matrix = vec![vec!["A", "B"], vec!["C", "D"]];
    let expected_output = vec![vec!["A", "C"], vec!["B", "D"]];
    assert_eq!(transpose(input_matrix), expected_output);
}

#[test]
fn test_transpose_3x2() {
    let input_matrix = vec![vec!["A", "B"], vec!["C", "D"], vec!["E", "F"]];
    let expected_output = vec![vec!["A", "C", "E"], vec!["B", "D", "F"]];
    assert_eq!(transpose(input_matrix), expected_output);
}

#[test]
fn test_transpose_2x3() {
    let input_matrix = vec![vec!["A", "B", "C"], vec!["D", "E", "F"]];
    let expected_output = vec![vec!["A", "D"], vec!["B", "E"], vec!["C", "F"]];
    assert_eq!(transpose(input_matrix), expected_output);
}

fn get_beat_column_renders() -> Vec<Vec<String>> {
    let row = |cells: [&str; 10]| cells.iter().map(|s| s.to_string()).collect::<Vec<String>>();
    vec![
        row(["0", "-", "-", "--", "|", "0", "-", "-", "--", "|"]),
        row(["-", "1", "-", "--", "|", "-", "1", "-", "--", "|"]),
        row(["-", "-", "2", "--", "|", "-", "-", "2", "--", "|"]),
        row(["-", "-", "-", "30", "|", "-", "-", "-", "30", "|"]),
    ]
}

#[test]
fn single_row_group() {
    let expected_string_groups = vec![
        vec!["-0--------|-0--------|---".to_owned()],
        vec!["---1------|---1------|---".to_owned()],
        vec!["-----2----|-----2----|---".to_owned()],
        vec!["-------30-|-------30-|---".to_owned()],
    ];
    let expected_position =
        Some(PlaybackIndicatorPosition { row_group_index: 0, column_index: 3 });
    assert_eq!(
        render_string_groups(get_beat_column_renders(), 25, 1, Some(1)),
        (expected_string_groups, expected_position)
    );
}

#[test]
fn single_row_group_playback_second_char_of_wide_fret() {
    let expected_string_groups = vec![
        vec!["-0--------|-0--------|---".to_owned()],
        vec!["---1------|---1------|---".to_owned()],
        vec!["-----2----|-----2----|---".to_owned()],
        vec!["-------30-|-------30-|---".to_owned()],
    ];
    let expected_position =
        Some(PlaybackIndicatorPosition { row_group_index: 0, column_index: 8 });
    assert_eq!(
        render_string_groups(get_beat_column_renders(), 25, 1, Some(3)),
        (expected_string_groups, expected_position)
    );
}

#[test]
fn two_row_group() {
    let expected_string_groups = vec![
        vec!["-0--------|---".to_owned(), "-0--------|---".to_owned()],
        vec!["---1------|---".to_owned(), "---1------|---".to_owned()],
        vec!["-----2----|---".to_owned(), "-----2----|---".to_owned()],
        vec!["-------30-|---".to_owned(), "-------30-|---".to_owned()],
    ];
    let expected_position =
        Some(PlaybackIndicatorPosition { row_group_index: 1, column_index: 5 });
    assert_eq!(
        render_string_groups(get_beat_column_renders(), 14, 1, Some(7)),
        (expected_string_groups, expected_position)
    );
}

#[test]
fn no_playback_column_index() {
    let (_, playback_indicator_position) =
        render_string_groups(get_beat_column_renders(), 20, 1, None);
    assert_eq!(playback_indicator_position, None);
}

#[test]
fn too_large_playback_column_index() {
    let (_, playback_indicator_position) =
        render_string_groups(get_beat_column_renders(), 20, 1, Some(100_000));
    assert_eq!(playback_indicator_position, None);
}
