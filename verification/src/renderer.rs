use vstd::prelude::*;
use vstd::string::StringExecFns;
use crate::arrangement::{Arrangement, Line};
use crate::guitar::{Guitar, PitchFingering};
use crate::text::{spec_udec, string_of_chars, u16_to_string};

verus! {

/// The decimal width of a fret number.
pub open spec fn spec_fret_width(fret: u8) -> int {
    spec_udec(fret as int).len() as int
}

/// The widest decimal width among the fingerings' fret numbers.
pub open spec fn spec_fret_width_max(fs: Seq<PitchFingering>) -> int
    decreases fs.len(),
{
    if fs.len() == 0 {
        0
    } else {
        let rest = spec_fret_width_max(fs.drop_last());
        if spec_fret_width(fs.last().fret) > rest {
            spec_fret_width(fs.last().fret)
        } else {
            rest
        }
    }
}

proof fn lemma_udec_len(n: int)
    requires
        0 <= n,
    ensures
        1 <= spec_udec(n).len(),
        n <= 255 ==> spec_udec(n).len() <= 3,
        n <= 99 ==> spec_udec(n).len() <= 2,
        n <= 9 ==> spec_udec(n).len() == 1,
    decreases n,
{
    if n >= 10 {
        lemma_udec_len(n / 10);
    }
}

/// The widest decimal width among the given fingerings' fret numbers.
pub fn calc_fret_width_max(pitch_fingerings: &Vec<PitchFingering>) -> (r: usize)
    requires
        pitch_fingerings@.len() > 0,
    ensures
        r == spec_fret_width_max(pitch_fingerings@),
        1 <= r <= 3,
{
    let mut w: usize = 0;
    let mut i: usize = 0;
    while i < pitch_fingerings.len()
        invariant
            i <= pitch_fingerings@.len(),
            w == spec_fret_width_max(pitch_fingerings@.subrange(0, i as int)),
            w <= 3,
        decreases pitch_fingerings@.len() - i,
    {
        let f = pitch_fingerings[i].fret;
        let fw: usize = if f > 99 {
            3
        } else if f > 9 {
            2
        } else {
            1
        };
        proof {
            lemma_udec_len(f as int);
            if f > 99 {
                assert(spec_udec(f as int).len() == spec_udec(f as int / 10).len() + 1);
                assert(spec_udec(f as int / 10).len() == spec_udec(f as int / 10 / 10).len() + 1);
                lemma_udec_len(f as int / 10 / 10);
                assert(spec_udec(f as int / 10 / 10).len() == 1);
            } else if f > 9 {
                assert(spec_udec(f as int).len() == spec_udec(f as int / 10).len() + 1);
                lemma_udec_len(f as int / 10);
                assert(spec_udec(f as int / 10).len() == 1);
            }
            assert(fw == spec_fret_width(f));
        }
        if fw > w {
            w = fw;
        }
        proof {
            let pre = pitch_fingerings@.subrange(0, i as int);
            let cur = pitch_fingerings@.subrange(0, (i + 1) as int);
            assert(cur.drop_last() =~= pre);
            assert(cur.last() == pitch_fingerings@[i as int]);
        }
        i += 1;
    }
    proof {
        assert(pitch_fingerings@.subrange(0, pitch_fingerings@.len() as int)
            =~= pitch_fingerings@);
        lemma_fret_width_max_pos(pitch_fingerings@);
    }
    w
}

proof fn lemma_fret_width_max_pos(fs: Seq<PitchFingering>)
    requires
        fs.len() > 0,
    ensures
        spec_fret_width_max(fs) >= 1,
    decreases fs.len(),
{
    lemma_udec_len(fs.last().fret as int);
    if fs.len() > 1 {
        lemma_fret_width_max_pos(fs.drop_last());
    }
}

/// A fret number padded on the left with dashes to the given width.
pub open spec fn spec_render_fret(fret: u8, width: int) -> Seq<char> {
    Seq::new((width - spec_fret_width(fret)) as nat, |t: int| '-') + spec_udec(fret as int)
}

/// Renders a fret number, left-padded with dashes to `fret_width_max` characters.
pub fn render_fret(fret: u8, fret_width_max: usize) -> (r: String)
    requires
        spec_fret_width(fret) <= fret_width_max,
    ensures
        r@ == spec_render_fret(fret, fret_width_max as int),
        r@.len() == fret_width_max,
{
    let digits = u16_to_string(fret as u16);
    let fw: usize = if fret > 99 {
        3
    } else if fret > 9 {
        2
    } else {
        1
    };
    proof {
        lemma_udec_len(fret as int);
        if fret > 99 {
            assert(spec_udec(fret as int).len() == spec_udec(fret as int / 10).len() + 1);
            assert(spec_udec(fret as int / 10).len() == spec_udec(fret as int / 10 / 10).len()
                + 1);
            lemma_udec_len(fret as int / 10 / 10);
            assert(spec_udec(fret as int / 10 / 10).len() == 1);
        } else if fret > 9 {
            assert(spec_udec(fret as int).len() == spec_udec(fret as int / 10).len() + 1);
            lemma_udec_len(fret as int / 10);
            assert(spec_udec(fret as int / 10).len() == 1);
        }
        assert(fw == spec_fret_width(fret));
    }
    let pad = fret_width_max - fw;
    let mut s = String::new();
    let mut i: usize = 0;
    while i < pad
        invariant
            i <= pad,
            s@ =~= Seq::new(i as nat, |t: int| '-'),
        decreases pad - i,
    {
        s.append("-");
        proof {
            reveal_strlit("-");
            assert("-"@ =~= seq!['-']);
            assert(s@ =~= Seq::new((i + 1) as nat, |t: int| '-'));
        }
        i += 1;
    }
    s.append(digits.as_str());
    proof {
        assert(s@ =~= spec_render_fret(fret, fret_width_max as int));
    }
    s
}

/// One rendered beat column: one cell per string, in string order. A measure
/// break shows a bar on every string, a rest a dash, and a playable beat its
/// fret number on each sounded string, padded to a uniform width.
pub open spec fn spec_render_line(l: Line<Seq<PitchFingering>>, num_strings: int) -> Seq<Seq<char>> {
    match l {
        Line::MeasureBreak => Seq::new(num_strings as nat, |t: int| seq!['|']),
        Line::Rest => Seq::new(num_strings as nat, |t: int| seq!['-']),
        Line::Playable(fs) => Seq::new(
            num_strings as nat,
            |t: int|
                if (exists|k: int|
                    0 <= k < fs.len() && (#[trigger] fs[k]).string_number.value() == t + 1) {
                    spec_render_fret(
                        fs[choose|k: int|
                            0 <= k < fs.len() && (#[trigger] fs[k]).string_number.value() == t
                                + 1].fret,
                        spec_fret_width_max(fs),
                    )
                } else {
                    Seq::new(spec_fret_width_max(fs) as nat, |u: int| '-')
                },
        ),
    }
}

/// Renders one beat as a column of cells, one per string.
pub fn render_line(line: &Line<Vec<PitchFingering>>, num_strings: usize) -> (r: Vec<String>)
    requires
        (line matches Line::Playable(fs) ==> fs@.len() > 0 && (forall|k: int|
            0 <= k < fs@.len() ==> 1 <= (#[trigger] fs@[k]).string_number.value() <= num_strings)
            && (forall|k1: int, k2: int|
            0 <= k1 < k2 < fs@.len() ==> (#[trigger] fs@[k1]).string_number.value() != (
            #[trigger] fs@[k2]).string_number.value())),
    ensures
        r@.len() == num_strings,
        r@.map_values(|s: String| s@) == spec_render_line(
            crate::arrangement::view_line(*line),
            num_strings as int,
        ),
{
    let ghost lv = crate::arrangement::view_line(*line);
    match line {
        Line::MeasureBreak => {
            let mut out: Vec<String> = Vec::new();
            let mut i: usize = 0;
            while i < num_strings
                invariant
                    i <= num_strings,
                    out@.len() == i,
                    forall|t: int| 0 <= t < i ==> (#[trigger] out@[t])@ == seq!['|'],
                decreases num_strings - i,
            {
                let s = String::from_str("|");
                proof {
                    reveal_strlit("|");
                    assert(s@ =~= seq!['|']);
                }
                out.push(s);
                i += 1;
            }
            proof {
                assert(out@.map_values(|s: String| s@) =~= spec_render_line(
                    lv,
                    num_strings as int,
                ));
            }
            out
        },
        Line::Rest => {
            let mut out: Vec<String> = Vec::new();
            let mut i: usize = 0;
            while i < num_strings
                invariant
                    i <= num_strings,
                    out@.len() == i,
                    forall|t: int| 0 <= t < i ==> (#[trigger] out@[t])@ == seq!['-'],
                decreases num_strings - i,
            {
                let s = String::from_str("-");
                proof {
                    reveal_strlit("-");
                    assert(s@ =~= seq!['-']);
                }
                out.push(s);
                i += 1;
            }
            proof {
                assert(out@.map_values(|s: String| s@) =~= spec_render_line(
                    lv,
                    num_strings as int,
                ));
            }
            out
        },
        Line::Playable(fs) => {
            let width = calc_fret_width_max(fs);
            let mut out: Vec<String> = Vec::new();
            let mut i: usize = 0;
            while i < num_strings
                invariant
                    i <= num_strings,
                    out@.len() == i,
                    width == spec_fret_width_max(fs@),
                    1 <= width <= 3,
                    lv == Line::<Seq<PitchFingering>>::Playable(fs@),
                    forall|k: int|
                        0 <= k < fs@.len() ==> 1 <= (#[trigger] fs@[k]).string_number.value()
                            <= num_strings,
                    forall|k1: int, k2: int|
                        0 <= k1 < k2 < fs@.len() ==> (#[trigger] fs@[k1]).string_number.value()
                            != (#[trigger] fs@[k2]).string_number.value(),
                    forall|t: int|
                        0 <= t < i ==> (#[trigger] out@[t])@ == spec_render_line(
                            lv,
                            num_strings as int,
                        )[t],
                decreases num_strings - i,
            {
                let mut cell: Option<String> = None;
                let mut k: usize = 0;
                let ghost target = i + 1;
                proof {
                    assert forall|k2: int|
                        0 <= k2 < fs@.len() implies spec_fret_width(
                        (#[trigger] fs@[k2]).fret,
                    ) <= width by {
                        lemma_width_bound(fs@, k2);
                    }
                }
                while k < fs.len() && cell.is_none()
                    invariant
                        k <= fs@.len(),
                        i < num_strings,
                        target == i + 1,
                        width == spec_fret_width_max(fs@),
                        forall|k2: int|
                            0 <= k2 < fs@.len() ==> spec_fret_width(
                                (#[trigger] fs@[k2]).fret,
                            ) <= width,
                        cell is None ==> (forall|k2: int|
                            0 <= k2 < k ==> (#[trigger] fs@[k2]).string_number.value() != target),
                        (cell matches Some(s) ==> (exists|k2: int|
                            0 <= k2 < fs@.len() && (#[trigger] fs@[k2]).string_number.value()
                                == target && s@ == spec_render_fret(fs@[k2].fret, width as int))),
                    decreases fs@.len() - k + (if cell is Some {
                        0int
                    } else {
                        1
                    }),
                {
                    if fs[k].string_number.get() as usize == i + 1 {
                        proof {
                            lemma_width_bound(fs@, k as int);
                        }
                        let s = render_fret(fs[k].fret, width);
                        cell = Some(s);
                    } else {
                        k += 1;
                    }
                }
                match cell {
                    Some(s) => {
                        out.push(s);
                        proof {
                            let t = i as int;
                            let k2 = choose|k2: int|
                                0 <= k2 < fs@.len() && (#[trigger] fs@[k2]).string_number.value()
                                    == target && out@[t]@ == spec_render_fret(
                                    fs@[k2].fret,
                                    width as int,
                                );
                            let kc = choose|k3: int|
                                0 <= k3 < fs@.len() && (#[trigger] fs@[k3]).string_number.value()
                                    == t + 1;
                            assert(kc == k2);
                            assert(out@[t]@ == spec_render_line(lv, num_strings as int)[t]);
                        }
                    },
                    None => {
                        let mut dash = String::new();
                        let mut d: usize = 0;
                        while d < width
                            invariant
                                d <= width,
                                dash@ =~= Seq::new(d as nat, |u: int| '-'),
                            decreases width - d,
                        {
                            dash.append("-");
                            proof {
                                reveal_strlit("-");
                                assert("-"@ =~= seq!['-']);
                                assert(dash@ =~= Seq::new((d + 1) as nat, |u: int| '-'));
                            }
                            d += 1;
                        }
                        out.push(dash);
                        proof {
                            let t = i as int;
                            assert(forall|k2: int|
                                0 <= k2 < fs@.len() ==> (#[trigger] fs@[k2]).string_number.value()
                                    != t + 1);
                            assert(out@[t]@ == spec_render_line(lv, num_strings as int)[t]);
                        }
                    },
                }
                i += 1;
            }
            proof {
                assert(out@.map_values(|s: String| s@) =~= spec_render_line(
                    lv,
                    num_strings as int,
                ));
            }
            out
        },
    }
}

proof fn lemma_width_bound(fs: Seq<PitchFingering>, k: int)
    requires
        0 <= k < fs.len(),
    ensures
        spec_fret_width(fs[k].fret) <= spec_fret_width_max(fs),
    decreases fs.len(),
{
    if k < fs.len() - 1 {
        lemma_width_bound(fs.drop_last(), k);
    }
}


/// How many lines of the prefix are sonorous (playable or rest, not a break).
pub open spec fn spec_sonorous_count(lines: Seq<Line<Vec<PitchFingering>>>) -> int
    decreases lines.len(),
{
    if lines.len() == 0 {
        0
    } else {
        spec_sonorous_count(lines.drop_last()) + if lines.last() is MeasureBreak {
            0
        } else {
            1int
        }
    }
}

/// The position of the sonorous line with the given 0-based sonorous index, if
/// there are enough sonorous lines.
pub fn line_index_of_sonorous_index(
    lines: &Vec<Line<Vec<PitchFingering>>>,
    playback_sonorous_column_num: usize,
) -> (r: Option<usize>)
    ensures
        r matches Some(j) ==> j < lines@.len() && !(lines@[j as int] is MeasureBreak)
            && spec_sonorous_count(lines@.subrange(0, j as int)) == playback_sonorous_column_num,
        r is None ==> spec_sonorous_count(lines@) <= playback_sonorous_column_num,
{
    let mut count: usize = 0;
    let mut i: usize = 0;
    while i < lines.len()
        invariant
            i <= lines@.len(),
            count == spec_sonorous_count(lines@.subrange(0, i as int)),
            count <= playback_sonorous_column_num,
        decreases lines@.len() - i,
    {
        let sonorous = match &lines[i] {
            Line::MeasureBreak => false,
            _ => true,
        };
        proof {
            let pre = lines@.subrange(0, i as int);
            let cur = lines@.subrange(0, (i + 1) as int);
            assert(cur.drop_last() =~= pre);
            assert(cur.last() == lines@[i as int]);
        }
        if sonorous {
            if count == playback_sonorous_column_num {
                return Some(i);
            }
            count += 1;
        }
        i += 1;
    }
    proof {
        assert(lines@.subrange(0, lines@.len() as int) =~= lines@);
    }
    None
}

/// Swaps the two axes of a rectangular matrix.
pub fn transpose<T: Copy>(v: Vec<Vec<T>>) -> (r: Vec<Vec<T>>)
    requires
        v@.len() > 0,
        forall|i: int| 0 <= i < v@.len() ==> (#[trigger] v@[i])@.len() == v@[0]@.len(),
    ensures
        r@.len() == v@[0]@.len(),
        forall|j: int| 0 <= j < r@.len() ==> (#[trigger] r@[j])@.len() == v@.len(),
        forall|j: int, i: int|
            0 <= j < r@.len() && 0 <= i < v@.len() ==> (#[trigger] r@[j]@[i]) == v@[i]@[j],
{
    let len = v[0].len();
    let mut r: Vec<Vec<T>> = Vec::new();
    let mut j: usize = 0;
    while j < len
        invariant
            j <= len,
            len == v@[0]@.len(),
            v@.len() > 0,
            forall|i: int| 0 <= i < v@.len() ==> (#[trigger] v@[i])@.len() == len,
            r@.len() == j,
            forall|t: int| 0 <= t < j ==> (#[trigger] r@[t])@.len() == v@.len(),
            forall|t: int, i: int|
                0 <= t < j && 0 <= i < v@.len() ==> (#[trigger] r@[t]@[i]) == v@[i]@[t],
        decreases len - j,
    {
        let mut row: Vec<T> = Vec::new();
        let mut i: usize = 0;
        while i < v.len()
            invariant
                i <= v@.len(),
                j < len,
                forall|t: int| 0 <= t < v@.len() ==> (#[trigger] v@[t])@.len() == len,
                row@.len() == i,
                forall|t: int| 0 <= t < i ==> (#[trigger] row@[t]) == v@[t]@[j as int],
            decreases v@.len() - i,
        {
            row.push(v[i][j]);
            i += 1;
        }
        r.push(row);
        j += 1;
    }
    r
}

/// Where the playback indicator sits in the rendered output: which row group,
/// and how far along the row.
#[derive(Debug, Clone, PartialEq, Eq)]
pub struct PlaybackIndicatorPosition {
    pub row_group_index: usize,
    pub column_index: usize,
}

/// Wraps each string's beat cells into rows of exactly `width` characters,
/// padded with dashes, and finds where the playback indicator lands.
pub fn render_string_groups(
    beat_column_renders: Vec<Vec<String>>,
    width: u16,
    padding: u8,
    playback_column_index: Option<usize>,
) -> (r: (Vec<Vec<String>>, Option<PlaybackIndicatorPosition>))
    requires
        width as int > 2 * padding as int + 2,
        forall|i: int, c: int|
            0 <= i < beat_column_renders@.len() && 0 <= c < beat_column_renders@[i]@.len() ==> (
            #[trigger] beat_column_renders@[i]@[c])@.len() <= 2,
    ensures
        r.0@.len() == beat_column_renders@.len(),
        forall|i: int, g: int|
            0 <= i < r.0@.len() && 0 <= g < (#[trigger] r.0@[i])@.len() ==> (
            #[trigger] r.0@[i]@[g])@.len() == width,
{
    let width_u: usize = width as usize;
    let padding_u: usize = padding as usize;
    let mut padding_render = String::new();
    let mut d: usize = 0;
    while d < padding_u
        invariant
            d <= padding_u,
            padding_render@.len() == d,
        decreases padding_u - d,
    {
        padding_render.append("-");
        proof {
            reveal_strlit("-");
        }
        d += 1;
    }

    let mut strings_rows: Vec<Vec<String>> = Vec::new();
    let mut playback_indicator_position: Option<PlaybackIndicatorPosition> = None;
    let mut i: usize = 0;
    while i < beat_column_renders.len()
        invariant
            i <= beat_column_renders@.len(),
            width_u == width as int,
            padding_u == padding as int,
            width_u > 2 * padding_u + 2,
            padding_render@.len() == padding_u,
            forall|t: int, c: int|
                0 <= t < beat_column_renders@.len() && 0 <= c < beat_column_renders@[t]@.len()
                    ==> (#[trigger] beat_column_renders@[t]@[c])@.len() <= 2,
            strings_rows@.len() == i,
            forall|t: int, g: int|
                0 <= t < i && 0 <= g < (#[trigger] strings_rows@[t])@.len() ==> (
                #[trigger] strings_rows@[t]@[g])@.len() == width as int,
        decreases beat_column_renders@.len() - i,
    {
        let string_beat_columns = &beat_column_renders[i];
        let num_render_columns = string_beat_columns.len();
        let mut next: usize = 0;
        let mut string_rows: Vec<String> = Vec::new();
        while next < num_render_columns
            invariant
                next <= num_render_columns,
                i < beat_column_renders@.len(),
                num_render_columns == string_beat_columns@.len(),
                string_beat_columns@ == beat_column_renders@[i as int]@,
                width_u == width as int,
                padding_u == padding as int,
                width_u > 2 * padding_u + 2,
                padding_render@.len() == padding_u,
                forall|t: int, c: int|
                    0 <= t < beat_column_renders@.len() && 0 <= c < beat_column_renders@[t]@.len()
                        ==> (#[trigger] beat_column_renders@[t]@[c])@.len() <= 2,
                forall|g: int|
                    0 <= g < string_rows@.len() ==> (#[trigger] string_rows@[g])@.len() == width_u,
            decreases num_render_columns - next,
        {
            let ghost next0 = next;
            let mut string_row = String::new();
            string_row.append(padding_render.as_str());
            while string_row.unicode_len() < width_u - padding_u - 2 && next < num_render_columns
                invariant
                    next <= num_render_columns,
                    i < beat_column_renders@.len(),
                    num_render_columns == string_beat_columns@.len(),
                    string_beat_columns@ == beat_column_renders@[i as int]@,
                    width_u == width as int,
                    padding_u == padding as int,
                    width_u > 2 * padding_u + 2,
                    padding_render@.len() == padding_u,
                    forall|t: int, c: int|
                        0 <= t < beat_column_renders@.len() && 0 <= c
                            < beat_column_renders@[t]@.len() ==> (
                        #[trigger] beat_column_renders@[t]@[c])@.len() <= 2,
                    string_row@.len() <= width_u,
                    string_row@.len() < width_u - padding_u - 2 + 2 + padding_u + 1,
                    next0 <= next,
                    next == next0 ==> string_row@.len() == padding_u,
                decreases num_render_columns - next,
            {
                let item = &string_beat_columns[next];
                match playback_column_index {
                    None => {},
                    Some(idx) => {
                        if next == idx {
                            let wide_fret_playback_offset: usize = if item.unicode_len() == 2 {
                                1
                            } else {
                                0
                            };
                            playback_indicator_position = Some(
                                PlaybackIndicatorPosition {
                                    row_group_index: string_rows.len(),
                                    column_index: string_row.unicode_len()
                                        + wide_fret_playback_offset,
                                },
                            );
                        }
                    },
                }
                string_row.append(item.as_str());
                string_row.append(padding_render.as_str());
                next += 1;
            }
            proof {
                assert(next > next0);
            }
            let row_len = string_row.unicode_len();
            let mut fill: usize = row_len;
            while fill < width_u
                invariant
                    fill <= width_u,
                    string_row@.len() == fill,
                decreases width_u - fill,
            {
                string_row.append("-");
                proof {
                    reveal_strlit("-");
                }
                fill += 1;
            }
            string_rows.push(string_row);
        }
        strings_rows.push(string_rows);
        i += 1;
    }
    (strings_rows, playback_indicator_position)
}

/// Joins the per-string row groups into the final tab text, one group after
/// another, marking the playback position above and below its group.
pub fn render_complete(
    strings_rows: &Vec<Vec<String>>,
    playback_indicator_position: Option<PlaybackIndicatorPosition>,
) -> (r: String)
    requires
        strings_rows@.len() > 0,
{
    let mut output = String::new();
    let num_row_groups = strings_rows[0].len();
    let mut row_group_index: usize = 0;
    while row_group_index < num_row_groups
        invariant
            row_group_index <= num_row_groups,
            strings_rows@.len() > 0,
            num_row_groups == strings_rows@[0]@.len(),
        decreases num_row_groups - row_group_index,
    {
        match &playback_indicator_position {
            None => {},
            Some(pos) => {
                if row_group_index == pos.row_group_index {
                    let mut sp: usize = 0;
                    while sp < pos.column_index
                        invariant
                            sp <= pos.column_index,
                        decreases pos.column_index - sp,
                    {
                        output.append(" ");
                        sp += 1;
                    }
                    output.append("▼");
                }
            },
        }
        output.append("\n");
        let mut s: usize = 0;
        while s < strings_rows.len()
            invariant
                s <= strings_rows@.len(),
                strings_rows@.len() > 0,
                num_row_groups == strings_rows@[0]@.len(),
                row_group_index < num_row_groups,
            decreases strings_rows@.len() - s,
        {
            let group = &strings_rows[s];
            if row_group_index < group.len() {
                output.append(group[row_group_index].as_str());
            } else {
                output.append("???");
            }
            output.append("\n");
            s += 1;
        }
        match &playback_indicator_position {
            None => {},
            Some(pos) => {
                if row_group_index == pos.row_group_index {
                    let mut sp: usize = 0;
                    while sp < pos.column_index
                        invariant
                            sp <= pos.column_index,
                        decreases pos.column_index - sp,
                    {
                        output.append(" ");
                        sp += 1;
                    }
                    output.append("▲");
                }
            },
        }
        output.append("\n");
        if row_group_index + 1 < num_row_groups {
            output.append("\n");
        }
        row_group_index += 1;
    }
    output
}


proof fn lemma_width_max_le2(fs: Seq<PitchFingering>)
    requires
        forall|k: int| 0 <= k < fs.len() ==> (#[trigger] fs[k]).fret <= 99,
    ensures
        spec_fret_width_max(fs) <= 2,
    decreases fs.len(),
{
    if fs.len() > 0 {
        let d = fs.drop_last();
        assert forall|k: int| 0 <= k < d.len() implies (#[trigger] d[k]).fret <= 99 by {
            assert(d[k] == fs[k]);
        }
        lemma_width_max_le2(d);
        let f = fs.last().fret;
        lemma_udec_len(f as int);
        if f > 9 {
            assert(spec_udec(f as int).len() == spec_udec(f as int / 10).len() + 1);
            lemma_udec_len(f as int / 10);
            assert(spec_udec(f as int / 10).len() == 1);
        }
    }
}

/// Renders an arrangement as an ASCII tab: one beat column per line, wrapped into
/// rows of exactly `width` characters, one row per guitar string, with the
/// optional playback position marked above and below its row group.
pub fn render_tab(
    arrangement: &Arrangement,
    guitar: &Guitar,
    width: u16,
    padding: u8,
    playback: Option<u16>,
) -> (r: String)
    requires
        arrangement.lines@.len() > 0,
        guitar.string_ranges@.len() > 0,
        width as int > 2 * padding as int + 2,
        forall|i: int|
            0 <= i < arrangement.lines@.len() ==> ((#[trigger] arrangement.lines@[i]) matches Line::Playable(
                fs,
            ) ==> fs@.len() > 0 && (forall|k: int|
                0 <= k < fs@.len() ==> (#[trigger] fs@[k]).fret <= 99 && 1 <= fs@[k].string_number.value()
                    <= guitar.string_ranges@.len()) && (forall|k1: int, k2: int|
                0 <= k1 < k2 < fs@.len() ==> (#[trigger] fs@[k1]).string_number.value() != (
                #[trigger] fs@[k2]).string_number.value())),
{
    let num_strings = guitar.string_ranges.len();

    let line_index_of_playback: Option<usize> = match playback {
        None => None,
        Some(playback_sonorous_column_num) => line_index_of_sonorous_index(
            &arrangement.lines,
            playback_sonorous_column_num as usize,
        ),
    };

    let mut columns: Vec<Vec<String>> = Vec::new();
    let mut i: usize = 0;
    while i < arrangement.lines.len()
        invariant
            i <= arrangement.lines@.len(),
            num_strings == guitar.string_ranges@.len(),
            num_strings > 0,
            forall|t: int|
                0 <= t < arrangement.lines@.len() ==> ((#[trigger] arrangement.lines@[t]) matches Line::Playable(
                    fs,
                ) ==> fs@.len() > 0 && (forall|k: int|
                    0 <= k < fs@.len() ==> (#[trigger] fs@[k]).fret <= 99 && 1
                        <= fs@[k].string_number.value() <= num_strings) && (forall|
                    k1: int,
                    k2: int,
                |
                    0 <= k1 < k2 < fs@.len() ==> (#[trigger] fs@[k1]).string_number.value() != (
                    #[trigger] fs@[k2]).string_number.value())),
            columns@.len() == i,
            forall|t: int| 0 <= t < i ==> (#[trigger] columns@[t])@.len() == num_strings,
            forall|t: int, c: int|
                0 <= t < i && 0 <= c < (#[trigger] columns@[t])@.len() ==> (
                #[trigger] columns@[t]@[c])@.len() <= 2,
        decreases arrangement.lines@.len() - i,
    {
        let line = &arrangement.lines[i];
        let col = render_line(line, num_strings);
        proof {
            let lv = crate::arrangement::view_line(*line);
            let rl = spec_render_line(lv, num_strings as int);
            assert forall|c: int| 0 <= c < col@.len() implies (#[trigger] col@[c])@.len() <= 2 by {
                assert(col@.map_values(|s2: String| s2@)[c] == col@[c]@);
                assert(col@[c]@ == rl[c]);
                match lv {
                    Line::Playable(fs) => {
                        assert(arrangement.lines@[i as int] matches Line::Playable(fv) && fv@
                            == fs);
                        let fv2 = arrangement.lines@[i as int]->Playable_0;
                        assert forall|k: int| 0 <= k < fs.len() implies (#[trigger] fs[k]).fret
                            <= 99 by {
                            assert(fs[k] == fv2@[k]);
                        }
                        lemma_width_max_le2(fs);
                        lemma_fret_width_max_pos2(fs);
                        assert(0 <= spec_fret_width_max(fs) <= 2);
                        if exists|k: int|
                            0 <= k < fs.len() && (#[trigger] fs[k]).string_number.value() == c
                                + 1 {
                            let kc = choose|k: int|
                                0 <= k < fs.len() && (#[trigger] fs[k]).string_number.value() == c
                                    + 1;
                            lemma_width_bound(fs, kc);
                            lemma_udec_len(fs[kc].fret as int);
                            assert(rl[c].len() == spec_fret_width_max(fs));
                        } else {
                            assert(rl[c].len() == spec_fret_width_max(fs));
                        }
                    },
                    _ => {},
                }
            }
        }
        columns.push(col);
        i += 1;
    }

    let mut beat_column_renders: Vec<Vec<String>> = Vec::new();
    let mut s: usize = 0;
    while s < num_strings
        invariant
            s <= num_strings,
            columns@.len() == arrangement.lines@.len(),
            forall|t: int| 0 <= t < columns@.len() ==> (#[trigger] columns@[t])@.len()
                == num_strings,
            forall|t: int, c: int|
                0 <= t < columns@.len() && 0 <= c < (#[trigger] columns@[t])@.len() ==> (
                #[trigger] columns@[t]@[c])@.len() <= 2,
            beat_column_renders@.len() == s,
            forall|t: int, c: int|
                0 <= t < s && 0 <= c < (#[trigger] beat_column_renders@[t])@.len() ==> (
                #[trigger] beat_column_renders@[t]@[c])@.len() <= 2,
        decreases num_strings - s,
    {
        let mut row: Vec<String> = Vec::new();
        let mut c: usize = 0;
        while c < columns.len()
            invariant
                c <= columns@.len(),
                s < num_strings,
                forall|t: int| 0 <= t < columns@.len() ==> (#[trigger] columns@[t])@.len()
                    == num_strings,
                forall|t: int, c2: int|
                    0 <= t < columns@.len() && 0 <= c2 < (#[trigger] columns@[t])@.len() ==> (
                    #[trigger] columns@[t]@[c2])@.len() <= 2,
                forall|c2: int| 0 <= c2 < row@.len() ==> (#[trigger] row@[c2])@.len() <= 2,
            decreases columns@.len() - c,
        {
            let cell = columns[c][s].clone();
            row.push(cell);
            c += 1;
        }
        beat_column_renders.push(row);
        s += 1;
    }

    let (strings_rows, playback_indicator_position) = render_string_groups(
        beat_column_renders,
        width,
        padding,
        line_index_of_playback,
    );
    proof {
        assert(strings_rows@.len() > 0);
    }
    render_complete(&strings_rows, playback_indicator_position)
}

proof fn lemma_fret_width_max_pos2(fs: Seq<PitchFingering>)
    requires
        fs.len() > 0,
    ensures
        spec_fret_width_max(fs) >= 1,
{
    lemma_fret_width_max_pos(fs);
}

} // verus!
