use vstd::prelude::*;

pub mod arrangement;
pub mod guitar;
pub mod parser;
pub mod pitch;
pub mod renderer;
pub mod string_number;
pub mod text;

use vstd::string::StringExecFns;
use crate::arrangement::{
    create_arrangements, lemma_first_playable_lt, spec_arrangement_of_path, spec_first_playable,
    spec_has_playable, spec_path_node_models, spec_playable_shape, spec_retained_count, view_line,
    view_lines, yen_paths, Arrangement, ArrangementError, Line,
};
use crate::guitar::{Guitar, GuitarError};
use crate::parser::{
    create_string_tuning_offset, lemma_clean_len_le, lemma_lines_len_le,
    lemma_pitch_indices_len_le, lemma_pitch_indices_nonempty, parse_lines, parse_tuning,
    spec_any_line_fails, spec_clean, spec_is_measure_break, spec_lines_from,
    spec_parse_errors_text, spec_parsed_line_ok, spec_pitch_indices_from, ParseError,
};
use crate::pitch::Pitch;
use crate::renderer::render_tab;

verus! {

/// Everything one composition request carries: the notation text, the guitar
/// configuration, how many arrangements to produce, and how to lay the tab out.
#[derive(Debug, Clone)]
pub struct CompositionInput {
    pub pitches: String,
    pub tuning_name: String,
    pub guitar_num_frets: u8,
    pub guitar_capo: u8,
    pub num_arrangements: u8,
    pub width: u16,
    pub padding: u8,
    pub playback_index: Option<u16>,
}

/// One produced composition: the rendered tab, the input pitch names beat by
/// beat, and the widest fret span the arrangement uses.
#[derive(Debug, Clone, PartialEq, Eq)]
pub struct Composition {
    pub tab: String,
    pub pitches: Vec<Vec<String>>,
    pub max_fret_span: u8,
}

/// Why a composition request failed: the notation, the guitar configuration, or
/// the arrangement search rejected it.
#[derive(Debug, Clone, PartialEq, Eq)]
pub enum CompositionError {
    Parse(ParseError),
    Guitar(GuitarError),
    Arrangement(ArrangementError),
}

impl CompositionError {
    pub fn message(&self) -> (r: String) {
        match self {
            CompositionError::Parse(e) => e.message(),
            CompositionError::Guitar(e) => e.message(),
            CompositionError::Arrangement(e) => e.message(),
        }
    }
}

/// Runs a whole composition request: parses the notation, builds the guitar,
/// generates up to the requested number of ranked arrangements, and renders each
/// as a tab.
pub fn wrapper_create_arrangements(composition_input: CompositionInput) -> (r: Result<
    Vec<Composition>,
    CompositionError,
>)
    requires
        composition_input.pitches@.len() <= 0xFFFF_FFFF,
        spec_lines_from(composition_input.pitches@, 0).len() <= 65535,
        composition_input.width as int > 2 * composition_input.padding as int + 2,
        (composition_input.guitar_num_frets <= 30 && composition_input.guitar_capo <= 8)
            ==> composition_input.guitar_capo <= composition_input.guitar_num_frets,
        !spec_any_line_fails(spec_lines_from(composition_input.pitches@, 0)) ==> (exists|i: int|
            0 <= i < spec_lines_from(composition_input.pitches@, 0).len() && spec_clean(
                #[trigger] spec_lines_from(composition_input.pitches@, 0)[i],
            ).len() != 0 && !spec_is_measure_break(
                spec_clean(spec_lines_from(composition_input.pitches@, 0)[i]),
            )),
    ensures
        spec_any_line_fails(spec_lines_from(composition_input.pitches@, 0)) <==> (r matches Err(
            e,
        ) && e is Parse),
        r matches Err(e) ==> (e matches CompositionError::Parse(pe) ==> pe.spec_message()
            == spec_parse_errors_text(spec_lines_from(composition_input.pitches@, 0))),
        r matches Ok(v) ==> v@.len() <= composition_input.num_arrangements,
{
    let CompositionInput {
        pitches: input_pitches,
        tuning_name,
        guitar_num_frets,
        guitar_capo,
        num_arrangements,
        width,
        padding,
        playback_index,
    } = composition_input;
    let ghost input0 = input_pitches@;

    let input_lines = match parse_lines(input_pitches) {
        Ok(v) => v,
        Err(e) => {
            return Err(CompositionError::Parse(e));
        },
    };
    let ghost ls = spec_lines_from(input0, 0);
    let ghost parsed = input_lines@;

    let mut pitch_names: Vec<Vec<String>> = Vec::new();
    let mut i: usize = 0;
    while i < input_lines.len()
        invariant
            i <= input_lines@.len(),
            pitch_names@.len() == i,
        decreases input_lines@.len() - i,
    {
        match &input_lines[i] {
            Line::Playable(ps) => {
                let mut names: Vec<String> = Vec::new();
                let mut k: usize = 0;
                while k < ps.len()
                    invariant
                        k <= ps@.len(),
                    decreases ps@.len() - k,
                {
                    names.push(ps[k].plain_text());
                    k += 1;
                }
                pitch_names.push(names);
            },
            Line::Rest => {
                let mut names: Vec<String> = Vec::new();
                names.push(String::from_str("REST"));
                pitch_names.push(names);
            },
            Line::MeasureBreak => {
                let mut names: Vec<String> = Vec::new();
                names.push(String::from_str("MEASURE_BREAK"));
                pitch_names.push(names);
            },
        }
        i += 1;
    }

    let offsets = parse_tuning(tuning_name.as_str());
    let tuning = create_string_tuning_offset(offsets);
    proof {
        if guitar_capo <= 8 {
            assert forall|t: int|
                0 <= t < tuning@.len() implies (#[trigger] tuning@[t]).1.as_index() + guitar_capo
                <= 119 by {
            let base = seq![52int, 47, 43, 38, 33, 28];
            assert(base[0] == 52 && base[1] == 47 && base[2] == 43 && base[3] == 38 && base[4]
                == 33 && base[5] == 28);
            assert(tuning@[t].1.as_index() == base[t] + offsets@[t]);
            assert(-5 <= offsets@[t] <= 1);
                assert(tuning@[t].1.as_index() <= 53);
            }
        }
    }
    let guitar = match Guitar::new(tuning, guitar_num_frets, guitar_capo) {
        Ok(g) => g,
        Err(e) => {
            return Err(CompositionError::Guitar(e));
        },
    };

    proof {
        assert forall|t: int|
            0 <= t < parsed.len() implies ((#[trigger] parsed[t]) matches Line::Playable(ps) ==> 1
            <= ps@.len() <= 0xFFFF_FFFF) by {
            match parsed[t] {
                Line::Playable(ps) => {
                    let raw = ls[t];
                    let c = spec_clean(raw);
                    assert(spec_parsed_line_ok(raw, parsed[t]));
                    assert(c.len() != 0 && !spec_is_measure_break(c));
                    assert(!crate::parser::spec_line_fails(raw));
                    lemma_pitch_indices_nonempty(c);
                    lemma_pitch_indices_len_le(c, 0);
                    lemma_clean_len_le(raw);
                    lemma_lines_len_le(input0, 0);
                    assert(ps@.map_values(|p: Pitch| p.as_index() as int)
                        == spec_pitch_indices_from(c, 0));
                    assert(ps@.len() == spec_pitch_indices_from(c, 0).len());
                },
                _ => {},
            }
        }
        assert(spec_has_playable(parsed)) by {
            let w = choose|w: int|
                0 <= w < ls.len() && spec_clean(#[trigger] ls[w]).len() != 0
                    && !spec_is_measure_break(spec_clean(ls[w]));
            assert(spec_parsed_line_ok(ls[w], parsed[w]));
            assert(parsed[w] is Playable);
        }
    }

    let ghost trimmed = parsed.subrange(spec_first_playable(parsed), parsed.len() as int);
    let arrangements = match create_arrangements(&guitar, input_lines, num_arrangements) {
        Ok(v) => v,
        Err(e) => {
            return Err(CompositionError::Arrangement(e));
        },
    };

    proof {
        lemma_first_playable_lt(parsed);
        assert(trimmed.len() > 0);
    }

    let num_strings = guitar.string_ranges.len();
    let mut compositions: Vec<Composition> = Vec::new();
    let mut t: usize = 0;
    while t < arrangements.len()
        invariant
            t <= arrangements@.len(),
            compositions@.len() == t,
            num_strings == guitar.string_ranges@.len(),
            num_strings == 6,
            guitar.wf(),
            width as int > 2 * padding as int + 2,
            trimmed == parsed.subrange(spec_first_playable(parsed), parsed.len() as int),
            trimmed.len() > 0,
            0 <= spec_first_playable(parsed) < parsed.len(),
            guitar.tuning@.len() == num_strings,
            forall|si: int|
                0 <= si < guitar.tuning@.len() ==> (#[trigger] guitar.tuning@[si]).0.value() == si
                    + 1,
            forall|x: int|
                0 <= x < parsed.len() ==> ((#[trigger] parsed[x]) matches Line::Playable(ps) ==> 1
                    <= ps@.len() <= 0xFFFF_FFFF),
            forall|x: int, q: int|
                0 <= x < arrangements@.len() && 0 <= q < trimmed.len() ==> {
                    let woven = view_lines((#[trigger] arrangements@[x]).lines@);
                    &&& woven.len() == trimmed.len()
                    &&& ((#[trigger] trimmed[q]) is MeasureBreak <==> woven[q] is MeasureBreak)
                    &&& (trimmed[q] is Rest ==> woven[q] is Rest)
                    &&& (forall|ps: Vec<Pitch>|
                        trimmed[q] == Line::<Vec<Pitch>>::Playable(ps) ==> (woven[q] matches Line::Playable(
                            fs,
                        ) && spec_playable_shape(guitar, ps, fs)))
                },
        decreases arrangements@.len() - t,
    {
        let arrangement = &arrangements[t];
        proof {
            assert(*arrangement == arrangements@[t as int]);
            let lines = arrangements@[t as int].lines@;
            let woven = view_lines(arrangements@[t as int].lines@);
            assert forall|q: int|
                0 <= q < trimmed.len() implies {
                let woven2 = view_lines((#[trigger] arrangements@[t as int]).lines@);
                &&& woven2.len() == trimmed.len()
                &&& ((#[trigger] trimmed[q]) is MeasureBreak <==> woven2[q] is MeasureBreak)
                &&& (trimmed[q] is Rest ==> woven2[q] is Rest)
                &&& (forall|ps: Vec<Pitch>|
                    trimmed[q] == Line::<Vec<Pitch>>::Playable(ps) ==> (woven2[q] matches Line::Playable(
                        fs,
                    ) && spec_playable_shape(guitar, ps, fs)))
            } by {}
            assert(woven.len() == trimmed.len()) by {
                // Naming the first trimmed beat lets the quantified length fact
                // above instantiate at this call site.
                let first_beat = trimmed[0];
                assert(!(first_beat is MeasureBreak) || first_beat is MeasureBreak);
            }
            assert(lines.len() == trimmed.len());
            assert forall|q: int|
                0 <= q < lines.len() implies ((#[trigger] lines[q]) matches Line::Playable(fv)
                ==> fv@.len() > 0 && (forall|k: int|
                0 <= k < fv@.len() ==> (#[trigger] fv@[k]).fret <= 99 && 1
                    <= fv@[k].string_number.value() <= num_strings) && (forall|k1: int, k2: int|
                0 <= k1 < k2 < fv@.len() ==> (#[trigger] fv@[k1]).string_number.value() != (
                #[trigger] fv@[k2]).string_number.value())) by {
                match lines[q] {
                    Line::Playable(fv) => {
                        assert(woven[q] == view_line(lines[q]));
                        assert(woven[q] == Line::<Seq<crate::guitar::PitchFingering>>::Playable(
                            fv@,
                        ));
                        match trimmed[q] {
                            Line::MeasureBreak => {
                                assert(woven[q] is MeasureBreak);
                                assert(false);
                            },
                            Line::Rest => {
                                assert(woven[q] is Rest);
                                assert(false);
                            },
                            Line::Playable(ps) => {
                                assert(trimmed[q] == Line::<Vec<Pitch>>::Playable(ps));
                                assert(spec_playable_shape(guitar, ps, fv@));
                                assert(trimmed[q] == parsed[spec_first_playable(parsed) + q]);
                                assert(fv@.len() == ps@.len());
                                assert(ps@.len() >= 1);
                                assert forall|k: int|
                                    0 <= k < fv@.len() implies (#[trigger] fv@[k]).fret <= 99 && 1
                                    <= fv@[k].string_number.value() <= num_strings by {
                                    let si = choose|si: int|
                                        0 <= si < guitar.string_ranges@.len() && (
                                        #[trigger] fv@[k]).string_number == (
                                        #[trigger] guitar.string_ranges@[si]).0 && fv@[k].fret
                                            < guitar.string_ranges@[si].1@.len();
                                    assert(guitar.string_ranges@[si].0 == guitar.tuning@[si].0);
                                    assert(guitar.string_ranges@[si].1@.len() == guitar.num_frets
                                        + 1);
                                }
                            },
                        }
                    },
                    _ => {},
                }
            }
        }
        let tab = render_tab(arrangement, &guitar, width, padding, playback_index);
        let mut names_copy: Vec<Vec<String>> = Vec::new();
        let mut c: usize = 0;
        while c < pitch_names.len()
            invariant
                c <= pitch_names@.len(),
            decreases pitch_names@.len() - c,
        {
            names_copy.push(pitch_names[c].clone());
            c += 1;
        }
        compositions.push(
            Composition { tab, pitches: names_copy, max_fret_span: arrangement.max_fret_span() },
        );
        t += 1;
    }
    Ok(compositions)
}

/// LAW (idempotence): the ranked arrangements are a function of the guitar, the
/// beats and the requested count alone. Any two result lists that satisfy the
/// pinned contract of `create_arrangements` for the same inputs agree in length,
/// in every beat line at the level of its contents, in every difficulty and in
/// every fret span, in the same order.
pub proof fn lemma_arrangements_deterministic(
    g: Guitar,
    trimmed: Seq<Line<Vec<Pitch>>>,
    n: u8,
    v1: Seq<Arrangement>,
    v2: Seq<Arrangement>,
)
    requires
        v1.len() == yen_paths(
            spec_path_node_models(g, trimmed),
            (spec_retained_count(trimmed) - 1) as u16,
            n as nat,
        ).len(),
        v2.len() == v1.len(),
        forall|t: int|
            0 <= t < v1.len() ==> spec_arrangement_of_path(
                g,
                trimmed,
                yen_paths(
                    spec_path_node_models(g, trimmed),
                    (spec_retained_count(trimmed) - 1) as u16,
                    n as nat,
                )[t],
                #[trigger] v1[t],
            ),
        forall|t: int|
            0 <= t < v2.len() ==> spec_arrangement_of_path(
                g,
                trimmed,
                yen_paths(
                    spec_path_node_models(g, trimmed),
                    (spec_retained_count(trimmed) - 1) as u16,
                    n as nat,
                )[t],
                #[trigger] v2[t],
            ),
    ensures
        forall|t: int|
            0 <= t < v1.len() ==> view_lines((#[trigger] v1[t]).lines@) == view_lines(
                v2[t].lines@,
            ) && v1[t].difficulty == v2[t].difficulty && v1[t].max_fret_span == v2[t].max_fret_span,
{
}

} // verus!
