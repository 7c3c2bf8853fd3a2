use guitar_tab_generator::arrangement::{
    calc_avg_non_zero_fret, calc_fret_span, calc_next_nodes, calculate_node_difficulty,
    create_arrangements, generate_fingering_combos, no_duplicate_strings, process_path,
    validate_fingerings, Arrangement, ArrangementError, BeatFingeringCombo, FretMean, Line, Node,
};
use guitar_tab_generator::guitar::{generate_pitch_fingerings, Guitar, PitchFingering};
use guitar_tab_generator::pitch::Pitch;
use guitar_tab_generator::string_number::StringNumber;

fn sn(n: u8) -> StringNumber {
    StringNumber::new(n).unwrap()
}

fn pf(pitch: Pitch, string: u8, fret: u8) -> PitchFingering {
    PitchFingering { pitch, string_number: sn(string), fret }
}

#[test]
fn test_max_fret_span() {
    let arrangement = Arrangement { lines: vec![], difficulty: 4, max_fret_span: 5 };
    assert_eq!(arrangement.max_fret_span(), 5);
}

#[test]
fn beat_fingering_combo_simple() {
    let pitch_fingering_1 = pf(Pitch::A0, 1, 2);
    let combo = BeatFingeringCombo::new(&vec![pitch_fingering_1]);
    assert_eq!(combo.fingering_combo, vec![pitch_fingering_1]);
    assert_eq!(combo.avg_non_zero_fret, Some(FretMean { fret_sum: 2, fret_count: 1 }));
    assert_eq!(combo.non_zero_fret_span, 0);
}

#[test]
fn beat_fingering_combo_complex() {
    let f1 = pf(Pitch::A0, 1, 2);
    let f2 = pf(Pitch::B1, 2, 5);
    let f3 = pf(Pitch::C2, 3, 0);
    let f4 = pf(Pitch::D3, 4, 1);
    let combo = BeatFingeringCombo::new(&vec![f1, f2, f3, f4]);
    assert_eq!(combo.fingering_combo, vec![f1, f2, f3, f4]);
    assert_eq!(combo.avg_non_zero_fret, Some(FretMean { fret_sum: 8, fret_count: 3 }));
    assert_eq!(combo.non_zero_fret_span, 4);
}

#[test]
fn single_non_zero_fret() {
    assert_eq!(
        calc_avg_non_zero_fret(&vec![pf(Pitch::A0, 1, 2)]),
        Some(FretMean { fret_sum: 2, fret_count: 1 })
    );
}

#[test]
fn single_zero_fret() {
    assert_eq!(calc_avg_non_zero_fret(&vec![pf(Pitch::A0, 1, 0)]), None);
}

#[test]
fn multiple_zero_frets() {
    assert_eq!(calc_avg_non_zero_fret(&vec![pf(Pitch::A0, 1, 0), pf(Pitch::B2, 2, 0)]), None);
}

#[test]
fn multiple_mixed_frets() {
    assert_eq!(
        calc_avg_non_zero_fret(&vec![
            pf(Pitch::A0, 1, 2),
            pf(Pitch::B1, 2, 5),
            pf(Pitch::C2, 3, 0),
            pf(Pitch::D3, 4, 1),
        ]),
        Some(FretMean { fret_sum: 8, fret_count: 3 })
    );
}

#[test]
fn arrangement_valid_simple() {
    let guitar = Guitar::default();
    let input_pitches = vec![Line::Playable(vec![Pitch::G3])];
    let expected_fingerings = vec![Line::Playable(vec![generate_pitch_fingerings(
        &guitar.string_ranges,
        &Pitch::G3,
    )])];
    assert_eq!(validate_fingerings(&guitar, &input_pitches).unwrap(), expected_fingerings);
}

#[test]
fn arrangement_valid_complex() {
    let guitar = Guitar::default();
    let input_pitches = vec![
        Line::Playable(vec![Pitch::G3]),
        Line::MeasureBreak,
        Line::Playable(vec![Pitch::B3]),
        Line::Rest,
        Line::Playable(vec![Pitch::D4, Pitch::G4]),
    ];
    let expected_fingerings = vec![
        Line::Playable(vec![generate_pitch_fingerings(&guitar.string_ranges, &Pitch::G3)]),
        Line::MeasureBreak,
        Line::Playable(vec![generate_pitch_fingerings(&guitar.string_ranges, &Pitch::B3)]),
        Line::Rest,
        Line::Playable(vec![
            generate_pitch_fingerings(&guitar.string_ranges, &Pitch::D4),
            generate_pitch_fingerings(&guitar.string_ranges, &Pitch::G4),
        ]),
    ];
    assert_eq!(validate_fingerings(&guitar, &input_pitches).unwrap(), expected_fingerings);
}

#[test]
fn arrangement_invalid_simple() {
    let guitar = Guitar::default();
    let input_pitches = vec![Line::Playable(vec![Pitch::B9])];
    let error = validate_fingerings(&guitar, &input_pitches).unwrap_err();
    let expected_error_msg =
        "Pitch B9 on line 1 cannot be played on any strings of the configured guitar.";
    assert_eq!(error.message(), expected_error_msg);
}

#[test]
fn arrangement_invalid_complex() {
    let guitar = Guitar::default();
    let input_pitches = vec![
        Line::Playable(vec![Pitch::A1]),
        Line::Playable(vec![Pitch::G3]),
        Line::Playable(vec![Pitch::B3]),
        Line::Playable(vec![Pitch::A1, Pitch::B1]),
        Line::Playable(vec![Pitch::G3, Pitch::D2]),
        Line::Playable(vec![Pitch::D4, Pitch::G4]),
    ];
    let error = validate_fingerings(&guitar, &input_pitches).unwrap_err();
    let expected_error_msg =
        "Pitch A1 on line 1 cannot be played on any strings of the configured guitar.\n\
        Pitch A1 on line 4 cannot be played on any strings of the configured guitar.\n\
        Pitch B1 on line 4 cannot be played on any strings of the configured guitar.\n\
        Pitch D2 on line 5 cannot be played on any strings of the configured guitar.";
    assert_eq!(error.message(), expected_error_msg);
}

#[test]
fn arrangement_simple() {
    let pitch_fingering = pf(Pitch::B6, 2, 3);
    let beat_fingerings_per_pitch = vec![vec![pitch_fingering]];
    let expected_fingering_combos = vec![vec![pitch_fingering]];
    assert_eq!(generate_fingering_combos(&beat_fingerings_per_pitch), expected_fingering_combos);
}

#[test]
fn arrangement_complex() {
    let a2 = pf(Pitch::B6, 2, 3);
    let a3 = pf(Pitch::B6, 3, 8);
    let b2 = pf(Pitch::C7, 2, 4);
    let b3 = pf(Pitch::C7, 3, 9);
    let b4 = pf(Pitch::C7, 4, 14);
    let beat_fingerings_per_pitch = vec![vec![a2, a3], vec![b2, b3, b4]];
    let expected_fingering_combos =
        vec![vec![a2, b3], vec![a2, b4], vec![a3, b2], vec![a3, b4]];
    assert_eq!(generate_fingering_combos(&beat_fingerings_per_pitch), expected_fingering_combos);
}

#[test]
fn valid_simple() {
    let fingering_1 = pf(Pitch::B6, 2, 3);
    assert!(no_duplicate_strings(&vec![fingering_1]));
}

#[test]
fn valid_complex() {
    let f1 = pf(Pitch::CSharpDFlat2, 1, 1);
    let f2 = pf(Pitch::F4, 2, 3);
    let f3 = pf(Pitch::A5, 4, 4);
    let f4 = pf(Pitch::DSharpEFlat6, 11, 0);
    assert!(no_duplicate_strings(&vec![f1, f2, f3, f4]));
}

#[test]
fn invalid_simple() {
    let f1 = pf(Pitch::CSharpDFlat2, 4, 1);
    let f2 = pf(Pitch::F4, 4, 3);
    assert!(!no_duplicate_strings(&vec![f1, f2]));
}

#[test]
fn invalid_complex() {
    let f1 = pf(Pitch::CSharpDFlat2, 1, 1);
    let f2 = pf(Pitch::F4, 3, 3);
    let f3 = pf(Pitch::A5, 6, 4);
    let f4 = pf(Pitch::DSharpEFlat6, 3, 0);
    assert!(!no_duplicate_strings(&vec![f1, f2, f3, f4]));
}

#[test]
fn arrangement_empty_input() {
    assert!(no_duplicate_strings(&vec![]));
}

#[test]
fn simple() {
    let fingering_1 = pf(Pitch::B6, 2, 3);
    assert_eq!(calc_fret_span(&vec![fingering_1]).unwrap(), 0);
}

#[test]
fn complex() {
    let f1 = pf(Pitch::CSharpDFlat2, 1, 1);
    let f2 = pf(Pitch::F4, 2, 3);
    let f3 = pf(Pitch::A5, 4, 4);
    let f4 = pf(Pitch::DSharpEFlat6, 11, 0);
    assert_eq!(calc_fret_span(&vec![f1, f2, f3, f4]).unwrap(), 3);
}

#[test]
fn empty_input() {
    assert!(calc_fret_span(&vec![]).is_none());
}

#[test]
fn single_line_single_pitch() {
    let input_pitches = vec![Line::Playable(vec![Pitch::E4])];
    let expected_arrangements = vec![Arrangement {
        lines: vec![Line::Playable(vec![pf(Pitch::E4, 1, 0)])],
        difficulty: 0,
        max_fret_span: 0,
    }];
    let arrangements = create_arrangements(&Guitar::default(), input_pitches, 1).unwrap();
    assert_eq!(arrangements, expected_arrangements);
}

#[test]
fn single_line_single_pitch_multiple_arrangements() {
    let input_pitches = vec![Line::Playable(vec![Pitch::E4])];
    let expected_arrangements = vec![
        Arrangement {
            lines: vec![Line::Playable(vec![pf(Pitch::E4, 1, 0)])],
            difficulty: 0,
            max_fret_span: 0,
        },
        Arrangement {
            lines: vec![Line::Playable(vec![pf(Pitch::E4, 2, 5)])],
            difficulty: 5,
            max_fret_span: 0,
        },
        Arrangement {
            lines: vec![Line::Playable(vec![pf(Pitch::E4, 3, 9)])],
            difficulty: 9,
            max_fret_span: 0,
        },
        Arrangement {
            lines: vec![Line::Playable(vec![pf(Pitch::E4, 4, 14)])],
            difficulty: 14,
            max_fret_span: 0,
        },
    ];
    let arrangements = create_arrangements(&Guitar::default(), input_pitches, 10).unwrap();
    assert_eq!(arrangements, expected_arrangements);
}

#[test]
fn single_lines_all_variants() {
    let input_pitches = vec![
        Line::Playable(vec![Pitch::E4]),
        Line::Rest,
        Line::MeasureBreak,
    ];
    let expected_arrangements = vec![Arrangement {
        lines: vec![
            Line::Playable(vec![pf(Pitch::E4, 1, 0)]),
            Line::Rest,
            Line::MeasureBreak,
        ],
        difficulty: 0,
        max_fret_span: 0,
    }];
    let arrangements = create_arrangements(&Guitar::default(), input_pitches, 1).unwrap();
    assert_eq!(arrangements, expected_arrangements);
}

#[test]
fn create_arrangements_empty_input() {
    let input_pitches: Vec<Line<Vec<Pitch>>> = vec![];
    let arrangements = create_arrangements(&Guitar::default(), input_pitches, 2).unwrap();
    let expected = vec![
        Arrangement { lines: vec![], difficulty: 0, max_fret_span: 0 },
        Arrangement { lines: vec![], difficulty: 0, max_fret_span: 0 },
    ];
    assert_eq!(arrangements, expected);
}

#[test]
fn empty_start_lines_input() {
    let input_pitches = vec![
        Line::Rest,
        Line::MeasureBreak,
        Line::Rest,
        Line::Playable(vec![Pitch::E4]),
        Line::Rest,
    ];
    let arrangements = create_arrangements(&Guitar::default(), input_pitches, 1).unwrap();
    let expected_arrangements = vec![Arrangement {
        lines: vec![Line::Playable(vec![pf(Pitch::E4, 1, 0)]), Line::Rest],
        difficulty: 0,
        max_fret_span: 0,
    }];
    assert_eq!(arrangements, expected_arrangements);
}

#[test]
fn zero_arrangements_requested() {
    let input_pitches = vec![Line::Playable(vec![Pitch::E4])];
    let error = create_arrangements(&Guitar::default(), input_pitches, 0).unwrap_err();
    assert_eq!(error.message(), "No arrangements were requested.");
}

#[test]
fn too_many_arrangements_requested() {
    let input_pitches = vec![Line::Playable(vec![Pitch::E4])];
    let error = create_arrangements(&Guitar::default(), input_pitches, 22).unwrap_err();
    assert_eq!(error.message(), "Too many arrangements to calculate. The maximum is 20.");
}

#[test]
fn no_arrangements_found() {
    // Two identical pitches that can each only be played on the same single
    // string: every combination repeats a string, so the search has no path.
    let guitar = Guitar::new(
        guitar_tab_generator::guitar::create_string_tuning(&vec![Pitch::E4]),
        2,
        0,
    )
    .unwrap();
    let input_pitches = vec![Line::Playable(vec![Pitch::E4, Pitch::E4])];
    let error = create_arrangements(&guitar, input_pitches, 1).unwrap_err();
    assert_eq!(error.message(), "No arrangements could be calculated.");
}

fn create_test_path_nodes() -> Vec<Node> {
    vec![
        Node::Note {
            line_index: 0,
            beat_fingering_combo: BeatFingeringCombo {
                fingering_combo: vec![],
                avg_non_zero_fret: Some(FretMean { fret_sum: 1, fret_count: 10 }),
                non_zero_fret_span: 0,
            },
        },
        Node::Note {
            line_index: 0,
            beat_fingering_combo: BeatFingeringCombo {
                fingering_combo: vec![],
                avg_non_zero_fret: Some(FretMean { fret_sum: 2, fret_count: 10 }),
                non_zero_fret_span: 0,
            },
        },
        Node::Note {
            line_index: 1,
            beat_fingering_combo: BeatFingeringCombo {
                fingering_combo: vec![],
                avg_non_zero_fret: Some(FretMean { fret_sum: 11, fret_count: 10 }),
                non_zero_fret_span: 1,
            },
        },
        Node::Rest { line_index: 2 },
        Node::Rest { line_index: 3 },
        Node::Note {
            line_index: 4,
            beat_fingering_combo: BeatFingeringCombo {
                fingering_combo: vec![],
                avg_non_zero_fret: Some(FretMean { fret_sum: 41, fret_count: 10 }),
                non_zero_fret_span: 4,
            },
        },
        Node::Note {
            line_index: 4,
            beat_fingering_combo: BeatFingeringCombo {
                fingering_combo: vec![],
                avg_non_zero_fret: Some(FretMean { fret_sum: 41, fret_count: 10 }),
                non_zero_fret_span: 4,
            },
        },
    ]
}

#[test]
fn from_start_to_note() {
    let current_node = Node::Start;
    let nodes = create_test_path_nodes();
    let expected: Vec<(Node, i32)> = vec![nodes[0].clone(), nodes[1].clone()]
        .into_iter()
        .map(|node| {
            let cost = calculate_node_difficulty(&current_node, &node);
            (node, cost)
        })
        .collect();
    assert_eq!(calc_next_nodes(&current_node, &nodes), expected);
}

#[test]
fn from_note_to_note() {
    let nodes = create_test_path_nodes();
    let current_node = nodes[0].clone();
    let expected: Vec<(Node, i32)> = vec![nodes[2].clone()]
        .into_iter()
        .map(|node| {
            let cost = calculate_node_difficulty(&current_node, &node);
            (node, cost)
        })
        .collect();
    assert_eq!(calc_next_nodes(&current_node, &nodes), expected);
}

#[test]
fn from_note_to_rest() {
    let nodes = create_test_path_nodes();
    let current_node = nodes[2].clone();
    let expected: Vec<(Node, i32)> = vec![nodes[3].clone()]
        .into_iter()
        .map(|node| {
            let cost = calculate_node_difficulty(&current_node, &node);
            (node, cost)
        })
        .collect();
    assert_eq!(calc_next_nodes(&current_node, &nodes), expected);
}

#[test]
fn from_rest_to_rest() {
    let nodes = create_test_path_nodes();
    let current_node = nodes[3].clone();
    let expected: Vec<(Node, i32)> = vec![nodes[4].clone()]
        .into_iter()
        .map(|node| {
            let cost = calculate_node_difficulty(&current_node, &node);
            (node, cost)
        })
        .collect();
    assert_eq!(calc_next_nodes(&current_node, &nodes), expected);
}

#[test]
fn from_rest_to_note() {
    let nodes = create_test_path_nodes();
    let current_node = nodes[4].clone();
    let expected: Vec<(Node, i32)> = vec![nodes[5].clone(), nodes[6].clone()]
        .into_iter()
        .map(|node| {
            let cost = calculate_node_difficulty(&current_node, &node);
            (node, cost)
        })
        .collect();
    assert_eq!(calc_next_nodes(&current_node, &nodes), expected);
}

fn note(avg: Option<(u64, u64)>, span: u8) -> Node {
    Node::Note {
        line_index: 1,
        beat_fingering_combo: BeatFingeringCombo {
            fingering_combo: vec![],
            avg_non_zero_fret: avg.map(|(s, c)| FretMean { fret_sum: s, fret_count: c }),
            non_zero_fret_span: span,
        },
    }
}

#[test]
fn simple_no_diff() {
    let current = note(Some((7, 2)), 0);
    let next = note(Some((7, 2)), 0);
    assert_eq!(calculate_node_difficulty(&current, &next), 3);
}

#[test]
fn simple_from_start() {
    let next = note(Some((7, 2)), 0);
    assert_eq!(calculate_node_difficulty(&Node::Start, &next), 3);
}

#[test]
fn simple_from_rest() {
    let next = note(Some((7, 2)), 0);
    assert_eq!(calculate_node_difficulty(&Node::Rest { line_index: 0 }, &next), 3);
}

#[test]
fn simple_to_rest() {
    let current = note(Some((7, 2)), 0);
    assert_eq!(calculate_node_difficulty(&current, &Node::Rest { line_index: 1 }), 0);
}

#[test]
fn simple_avg_fret_diff() {
    let current = note(Some((3, 1)), 0);
    let next = note(Some((8, 5)), 0);
    assert_eq!(calculate_node_difficulty(&current, &next), 141);
}

#[test]
fn simple_fret_span() {
    let current = note(Some((62, 15)), 0);
    let next = note(Some((62, 15)), 3);
    assert_eq!(calculate_node_difficulty(&current, &next), 34);
}

#[test]
fn compound() {
    let current = note(Some((5, 1)), 0);
    let next = note(Some((2, 1)), 5);
    assert_eq!(calculate_node_difficulty(&current, &next), 352);
}

#[test]
fn node_difficulty_complex() {
    let current = note(Some((22, 3)), 0);
    let next = note(Some((11, 3)), 4);
    assert_eq!(calculate_node_difficulty(&current, &next), 410);
}

#[test]
fn process_path_simple() {
    let combo = BeatFingeringCombo {
        fingering_combo: vec![pf(Pitch::C4, 1, 3)],
        avg_non_zero_fret: Some(FretMean { fret_sum: 3, fret_count: 1 }),
        non_zero_fret_span: 0,
    };
    let path_nodes = vec![
        Node::Start,
        Node::Note { line_index: 0, beat_fingering_combo: combo.clone() },
    ];
    let arrangement = process_path(&path_nodes, 123, &vec![]);
    let expected = Arrangement {
        lines: vec![Line::Playable(combo.fingering_combo)],
        difficulty: 123,
        max_fret_span: 0,
    };
    assert_eq!(arrangement, expected);
}

#[test]
fn process_path_complex() {
    let combo = BeatFingeringCombo {
        fingering_combo: vec![pf(Pitch::C4, 1, 3)],
        avg_non_zero_fret: Some(FretMean { fret_sum: 3, fret_count: 1 }),
        non_zero_fret_span: 4,
    };
    let path_nodes = vec![
        Node::Start,
        Node::Note { line_index: 0, beat_fingering_combo: combo.clone() },
        Node::Note { line_index: 1, beat_fingering_combo: combo.clone() },
        Node::Rest { line_index: 2 },
        Node::Note { line_index: 3, beat_fingering_combo: combo.clone() },
        Node::Note { line_index: 4, beat_fingering_combo: combo.clone() },
    ];
    let arrangement = process_path(&path_nodes, 321, &vec![0, 2, 5, 7]);
    let expected = Arrangement {
        lines: vec![
            Line::MeasureBreak,
            Line::Playable(combo.fingering_combo.clone()),
            Line::MeasureBreak,
            Line::Playable(combo.fingering_combo.clone()),
            Line::Rest,
            Line::MeasureBreak,
            Line::Playable(combo.fingering_combo.clone()),
            Line::MeasureBreak,
            Line::Playable(combo.fingering_combo.clone()),
        ],
        difficulty: 321,
        max_fret_span: 4,
    };
    assert_eq!(arrangement, expected);
}

#[test]
fn boundary_counts() {
    let guitar = Guitar::default();
    let input = vec![Line::Playable(vec![Pitch::E4])];
    match create_arrangements(&guitar, input.clone(), 0).unwrap_err() {
        ArrangementError::NoArrangementsRequested => {},
        other => panic!("unexpected error {:?}", other),
    }
    match create_arrangements(&guitar, input.clone(), 21).unwrap_err() {
        ArrangementError::TooManyArrangementsRequested => {},
        other => panic!("unexpected error {:?}", other),
    }
    for count in [1u8, 2, 4, 20] {
        let got = create_arrangements(&guitar, input.clone(), count).unwrap();
        let available = 4;
        assert_eq!(got.len(), available.min(count as usize));
    }
}

#[test]
fn idempotent_results() {
    let guitar = Guitar::default();
    let input = vec![
        Line::Playable(vec![Pitch::G3]),
        Line::Rest,
        Line::Playable(vec![Pitch::D4, Pitch::G4]),
        Line::MeasureBreak,
        Line::Playable(vec![Pitch::B3]),
    ];
    let first = create_arrangements(&guitar, input.clone(), 5).unwrap();
    let second = create_arrangements(&guitar, input, 5).unwrap();
    assert_eq!(first, second);
}

#[test]
fn ranking_is_sorted() {
    let guitar = Guitar::default();
    let input = vec![
        Line::Playable(vec![Pitch::E4]),
        Line::Playable(vec![Pitch::G3, Pitch::B3]),
    ];
    let arrangements = create_arrangements(&guitar, input, 20).unwrap();
    assert!(arrangements.len() >= 2);
    for pair in arrangements.windows(2) {
        assert!(pair[0].difficulty <= pair[1].difficulty);
    }
}

#[test]
fn no_string_sounded_twice() {
    let guitar = Guitar::default();
    let input = vec![Line::Playable(vec![Pitch::G3, Pitch::B3, Pitch::D4])];
    let arrangements = create_arrangements(&guitar, input, 20).unwrap();
    assert!(!arrangements.is_empty());
    for arrangement in &arrangements {
        for line in &arrangement.lines {
            if let Line::Playable(fs) = line {
                for a in 0..fs.len() {
                    for b in a + 1..fs.len() {
                        assert_ne!(fs[a].string_number, fs[b].string_number);
                    }
                }
            }
        }
    }
}

#[test]
fn beat_positions_preserved() {
    let guitar = Guitar::default();
    let input = vec![
        Line::Playable(vec![Pitch::E4]),
        Line::Rest,
        Line::MeasureBreak,
        Line::Playable(vec![Pitch::G3]),
        Line::MeasureBreak,
    ];
    let arrangements = create_arrangements(&guitar, input.clone(), 3).unwrap();
    for arrangement in &arrangements {
        assert_eq!(arrangement.lines.len(), input.len());
        for (got, expected) in arrangement.lines.iter().zip(input.iter()) {
            match expected {
                Line::MeasureBreak => assert!(matches!(got, Line::MeasureBreak)),
                Line::Rest => assert!(matches!(got, Line::Rest)),
                Line::Playable(ps) => match got {
                    Line::Playable(fs) => {
                        assert_eq!(fs.len(), ps.len());
                        for (f, p) in fs.iter().zip(ps.iter()) {
                            assert_eq!(f.pitch, *p);
                        }
                    },
                    other => panic!("expected a playable beat, got {:?}", other),
                },
            }
        }
    }
}

#[test]
fn trivial_arrangements_for_silent_input() {
    let guitar = Guitar::default();
    let input = vec![Line::Rest, Line::MeasureBreak];
    let arrangements = create_arrangements(&guitar, input, 2).unwrap();
    assert_eq!(arrangements.len(), 2);
    for arrangement in &arrangements {
        assert_eq!(arrangement.lines.len(), 0);
        assert_eq!(arrangement.difficulty, 0);
        assert_eq!(arrangement.max_fret_span(), 0);
    }
}

#[test]
fn unreachable_pitch_named_with_position() {
    let guitar = Guitar::default();
    let input = vec![
        Line::Playable(vec![Pitch::E4]),
        Line::Playable(vec![Pitch::B9]),
    ];
    let error = create_arrangements(&guitar, input, 1).unwrap_err();
    assert_eq!(
        error.message(),
        "Pitch B9 on line 2 cannot be played on any strings of the configured guitar."
    );
}
