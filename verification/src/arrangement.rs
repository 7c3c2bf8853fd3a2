use vstd::prelude::*;
use vstd::string::StringExecFns;
use crate::guitar::{Guitar, PitchFingering, generate_pitch_fingerings, spec_pitch_fingerings};
use crate::pitch::Pitch;
use crate::text::{spec_udec, u16_to_string};

verus! {

/// One input beat: a measure separator, a silent beat, or a playable set of
/// simultaneous pitches.
#[derive(Debug, Clone, PartialEq, Eq, Hash)]
pub enum Line<T> {
    MeasureBreak,
    Rest,
    Playable(T),
}

/// One rejected input value together with its 1-based line number.
#[derive(Debug, Clone, PartialEq, Eq)]
pub struct InvalidInput {
    pub value: String,
    pub line_number: u16,
}

/// The mean of the non-open frets of a fingering combination, kept exact as the
/// fraction `fret_sum / fret_count`.
#[derive(Debug, Clone, Copy, PartialEq, Eq, Hash, Structural)]
pub struct FretMean {
    pub fret_sum: u64,
    pub fret_count: u64,
}

/// Sum of the non-open (non-zero) frets of a fingering sequence.
pub open spec fn spec_nonzero_fret_sum(s: Seq<PitchFingering>) -> int
    decreases s.len(),
{
    if s.len() == 0 {
        0
    } else {
        spec_nonzero_fret_sum(s.drop_last()) + if s.last().fret != 0 {
            s.last().fret as int
        } else {
            0
        }
    }
}

/// Number of non-open (non-zero) frets of a fingering sequence.
pub open spec fn spec_nonzero_fret_count(s: Seq<PitchFingering>) -> int
    decreases s.len(),
{
    if s.len() == 0 {
        0
    } else {
        spec_nonzero_fret_count(s.drop_last()) + if s.last().fret != 0 {
            1int
        } else {
            0
        }
    }
}

/// The exact mean over the non-open frets, undefined when every fret is open.
pub open spec fn spec_avg_non_zero_fret(s: Seq<PitchFingering>) -> Option<FretMean> {
    if spec_nonzero_fret_count(s) == 0 {
        None
    } else {
        Some(
            FretMean {
                fret_sum: spec_nonzero_fret_sum(s) as u64,
                fret_count: spec_nonzero_fret_count(s) as u64,
            },
        )
    }
}

pub proof fn lemma_nonzero_fret_bounds(s: Seq<PitchFingering>)
    ensures
        0 <= spec_nonzero_fret_count(s) <= s.len(),
        0 <= spec_nonzero_fret_sum(s) <= 255 * spec_nonzero_fret_count(s),
        spec_nonzero_fret_count(s) <= spec_nonzero_fret_sum(s),
    decreases s.len(),
{
    if s.len() > 0 {
        lemma_nonzero_fret_bounds(s.drop_last());
    }
}

/// The exact mean of the non-open frets, or `None` if every fingering is open.
pub fn calc_avg_non_zero_fret(beat_fingering_candidate: &Vec<PitchFingering>) -> (r: Option<
    FretMean,
>)
    requires
        beat_fingering_candidate@.len() <= 0xFFFF_FFFF,
    ensures
        r == spec_avg_non_zero_fret(beat_fingering_candidate@),
{
    let mut sum: u64 = 0;
    let mut count: u64 = 0;
    let mut i: usize = 0;
    while i < beat_fingering_candidate.len()
        invariant
            i <= beat_fingering_candidate@.len(),
            beat_fingering_candidate@.len() <= 0xFFFF_FFFF,
            count <= i,
            sum <= 255 * count,
            sum == spec_nonzero_fret_sum(beat_fingering_candidate@.subrange(0, i as int)),
            count == spec_nonzero_fret_count(beat_fingering_candidate@.subrange(0, i as int)),
        decreases beat_fingering_candidate@.len() - i,
    {
        let f = beat_fingering_candidate[i];
        if f.fret != 0 {
            sum += f.fret as u64;
            count += 1;
        }
        proof {
            let pre = beat_fingering_candidate@.subrange(0, i as int);
            let cur = beat_fingering_candidate@.subrange(0, (i + 1) as int);
            assert(cur.drop_last() =~= pre);
            assert(cur.last() == beat_fingering_candidate@[i as int]);
        }
        i += 1;
    }
    proof {
        assert(beat_fingering_candidate@.subrange(0, beat_fingering_candidate@.len() as int)
            =~= beat_fingering_candidate@);
    }
    if count == 0 {
        None
    } else {
        Some(FretMean { fret_sum: sum, fret_count: count })
    }
}

/// The least non-open fret, or 256 when every fret is open.
pub open spec fn spec_min_nonzero_fret(s: Seq<PitchFingering>) -> int
    decreases s.len(),
{
    if s.len() == 0 {
        256
    } else {
        let rest = spec_min_nonzero_fret(s.drop_last());
        if s.last().fret != 0 && s.last().fret < rest {
            s.last().fret as int
        } else {
            rest
        }
    }
}

/// The greatest non-open fret, or -1 when every fret is open.
pub open spec fn spec_max_nonzero_fret(s: Seq<PitchFingering>) -> int
    decreases s.len(),
{
    if s.len() == 0 {
        -1
    } else {
        let rest = spec_max_nonzero_fret(s.drop_last());
        if s.last().fret != 0 && s.last().fret > rest {
            s.last().fret as int
        } else {
            rest
        }
    }
}

pub proof fn lemma_minmax_nonzero_fret(s: Seq<PitchFingering>)
    ensures
        spec_max_nonzero_fret(s) == -1 <==> spec_min_nonzero_fret(s) == 256,
        spec_max_nonzero_fret(s) != -1 ==> 1 <= spec_min_nonzero_fret(s)
            <= spec_max_nonzero_fret(s) <= 255,
    decreases s.len(),
{
    if s.len() > 0 {
        lemma_minmax_nonzero_fret(s.drop_last());
    }
}

/// The span between the highest and lowest non-open fret, undefined when every
/// fret is open.
pub open spec fn spec_fret_span(s: Seq<PitchFingering>) -> Option<u8> {
    if spec_max_nonzero_fret(s) == -1 {
        None
    } else {
        Some((spec_max_nonzero_fret(s) - spec_min_nonzero_fret(s)) as u8)
    }
}

/// The difference between the greatest and least non-open fret, if any fret is
/// non-open.
pub fn calc_fret_span(beat_fingering_candidate: &Vec<PitchFingering>) -> (r: Option<u8>)
    ensures
        r == spec_fret_span(beat_fingering_candidate@),
{
    let mut min_f: u16 = 256;
    let mut max_f: i16 = -1;
    let mut i: usize = 0;
    while i < beat_fingering_candidate.len()
        invariant
            i <= beat_fingering_candidate@.len(),
            min_f == spec_min_nonzero_fret(beat_fingering_candidate@.subrange(0, i as int)),
            max_f == spec_max_nonzero_fret(beat_fingering_candidate@.subrange(0, i as int)),
        decreases beat_fingering_candidate@.len() - i,
    {
        let f = beat_fingering_candidate[i];
        if f.fret != 0 {
            if (f.fret as u16) < min_f {
                min_f = f.fret as u16;
            }
            if (f.fret as i16) > max_f {
                max_f = f.fret as i16;
            }
        }
        proof {
            let pre = beat_fingering_candidate@.subrange(0, i as int);
            let cur = beat_fingering_candidate@.subrange(0, (i + 1) as int);
            assert(cur.drop_last() =~= pre);
            assert(cur.last() == beat_fingering_candidate@[i as int]);
        }
        i += 1;
    }
    proof {
        assert(beat_fingering_candidate@.subrange(0, beat_fingering_candidate@.len() as int)
            =~= beat_fingering_candidate@);
        lemma_minmax_nonzero_fret(beat_fingering_candidate@);
    }
    if max_f < 0 {
        None
    } else {
        Some((max_f as u16 - min_f) as u8)
    }
}

/// Whether no two fingerings of the sequence share a string.
pub open spec fn spec_no_duplicate_strings(s: Seq<PitchFingering>) -> bool {
    forall|i: int, j: int|
        0 <= i < j < s.len() ==> (#[trigger] s[i]).string_number.value() != (
        #[trigger] s[j]).string_number.value()
}

/// Checks that every fingering of the beat sounds on its own string, so that all
/// pitches can ring at once.
pub fn no_duplicate_strings(beat_fingering_option: &Vec<PitchFingering>) -> (r: bool)
    ensures
        r == spec_no_duplicate_strings(beat_fingering_option@),
{
    let n = beat_fingering_option.len();
    let mut i: usize = 0;
    while i < n
        invariant
            i <= n,
            n == beat_fingering_option@.len(),
            forall|a: int, b: int|
                0 <= a < i && a < b < n ==> (#[trigger] beat_fingering_option@[a]).string_number.value()
                    != (#[trigger] beat_fingering_option@[b]).string_number.value(),
        decreases n - i,
    {
        let mut j: usize = i + 1;
        while j < n
            invariant
                i < j <= n || (i + 1 == j && j > n),
                i < n,
                n == beat_fingering_option@.len(),
                forall|b: int|
                    i < b < j ==> (#[trigger] beat_fingering_option@[b]).string_number.value()
                        != beat_fingering_option@[i as int].string_number.value(),
            decreases n - j,
        {
            if beat_fingering_option[i].string_number.get() == beat_fingering_option[j].string_number.get() {
                return false;
            }
            j += 1;
        }
        i += 1;
    }
    true
}

/// One full assignment of fingerings for a playable beat, with its derived
/// difficulty metrics: the exact mean non-open fret and the non-open fret span.
#[derive(Debug, Clone, PartialEq, Eq, Hash)]
pub struct BeatFingeringCombo {
    pub fingering_combo: Vec<PitchFingering>,
    pub avg_non_zero_fret: Option<FretMean>,
    pub non_zero_fret_span: u8,
}

impl BeatFingeringCombo {
    /// The metrics stored alongside the fingerings agree with them.
    pub open spec fn wf(self) -> bool {
        &&& self.avg_non_zero_fret == spec_avg_non_zero_fret(self.fingering_combo@)
        &&& self.non_zero_fret_span == spec_span_or_zero(self.fingering_combo@)
    }

    pub fn new(beat_fingering_candidate: &Vec<PitchFingering>) -> (r: BeatFingeringCombo)
        requires
            beat_fingering_candidate@.len() <= 0xFFFF_FFFF,
        ensures
            r.fingering_combo@ == beat_fingering_candidate@,
            r.wf(),
    {
        let avg = calc_avg_non_zero_fret(beat_fingering_candidate);
        let span = match calc_fret_span(beat_fingering_candidate) {
            Some(s) => s,
            None => 0,
        };
        BeatFingeringCombo {
            fingering_combo: beat_fingering_candidate.clone(),
            avg_non_zero_fret: avg,
            non_zero_fret_span: span,
        }
    }
}

/// The fret span of a combination, taking 0 where it is undefined.
pub open spec fn spec_span_or_zero(s: Seq<PitchFingering>) -> u8 {
    match spec_fret_span(s) {
        Some(v) => v,
        None => 0,
    }
}


/// The views of a vector of fingering combinations.
pub open spec fn view_combos(v: Seq<Vec<PitchFingering>>) -> Seq<Seq<PitchFingering>> {
    v.map_values(|x: Vec<PitchFingering>| x@)
}

/// `p` extended in turn by every element of `xs`.
pub open spec fn spec_extend_one(p: Seq<PitchFingering>, xs: Seq<PitchFingering>) -> Seq<
    Seq<PitchFingering>,
>
    decreases xs.len(),
{
    if xs.len() == 0 {
        Seq::empty()
    } else {
        spec_extend_one(p, xs.drop_last()).push(p.push(xs.last()))
    }
}

/// Every combination of `ps` extended by every element of `xs`; the choice of the
/// combination varies slowest.
pub open spec fn spec_cross(ps: Seq<Seq<PitchFingering>>, xs: Seq<PitchFingering>) -> Seq<
    Seq<PitchFingering>,
>
    decreases ps.len(),
{
    if ps.len() == 0 {
        Seq::empty()
    } else {
        spec_cross(ps.drop_last(), xs) + spec_extend_one(ps.last(), xs)
    }
}

/// Every way to pick one fingering per pitch, one from each list, in order: the
/// pick for the first pitch varies slowest.
pub open spec fn spec_product(ls: Seq<Seq<PitchFingering>>) -> Seq<Seq<PitchFingering>>
    decreases ls.len(),
{
    if ls.len() == 0 {
        seq![Seq::<PitchFingering>::empty()]
    } else {
        spec_cross(spec_product(ls.drop_last()), ls.last())
    }
}

/// The combinations of `cs` on which no two fingerings share a string, in order.
pub open spec fn spec_filter_duplicate_strings(cs: Seq<Seq<PitchFingering>>) -> Seq<
    Seq<PitchFingering>,
>
    decreases cs.len(),
{
    if cs.len() == 0 {
        Seq::empty()
    } else if spec_no_duplicate_strings(cs.last()) {
        spec_filter_duplicate_strings(cs.drop_last()).push(cs.last())
    } else {
        spec_filter_duplicate_strings(cs.drop_last())
    }
}

/// The playable fingering combinations of a beat: every way to pick one fingering
/// per pitch, pruned of picks in which two pitches would share a string.
pub fn generate_fingering_combos(beat_fingerings_per_pitch: &Vec<Vec<PitchFingering>>) -> (r: Vec<
    Vec<PitchFingering>,
>)
    requires
        beat_fingerings_per_pitch@.len() > 0,
    ensures
        view_combos(r@) == spec_filter_duplicate_strings(
            spec_product(view_combos(beat_fingerings_per_pitch@)),
        ),
{
    let mut acc: Vec<Vec<PitchFingering>> = Vec::new();
    acc.push(Vec::new());
    proof {
        assert(view_combos(acc@) =~= seq![Seq::<PitchFingering>::empty()]);
        assert(view_combos(beat_fingerings_per_pitch@).subrange(0, 0) =~= Seq::<
            Seq<PitchFingering>,
        >::empty());
        assert(view_combos(acc@) =~= spec_product(
            view_combos(beat_fingerings_per_pitch@).subrange(0, 0),
        ));
    }
    let mut i: usize = 0;
    while i < beat_fingerings_per_pitch.len()
        invariant
            i <= beat_fingerings_per_pitch@.len(),
            view_combos(acc@) == spec_product(
                view_combos(beat_fingerings_per_pitch@).subrange(0, i as int),
            ),
        decreases beat_fingerings_per_pitch@.len() - i,
    {
        let xs = &beat_fingerings_per_pitch[i];
        let mut next: Vec<Vec<PitchFingering>> = Vec::new();
        let mut a: usize = 0;
        while a < acc.len()
            invariant
                a <= acc@.len(),
                view_combos(next@) == spec_cross(view_combos(acc@).subrange(0, a as int), xs@),
            decreases acc@.len() - a,
        {
            let p = &acc[a];
            let mut b: usize = 0;
            while b < xs.len()
                invariant
                    b <= xs@.len(),
                    a < acc@.len(),
                    p@ == acc@[a as int]@,
                    view_combos(next@) == spec_cross(view_combos(acc@).subrange(0, a as int), xs@)
                        + spec_extend_one(acc@[a as int]@, xs@.subrange(0, b as int)),
                decreases xs@.len() - b,
            {
                let mut ext = p.clone();
                ext.push(xs[b]);
                let ghost prev_next = next@;
                next.push(ext);
                proof {
                    let pre = xs@.subrange(0, b as int);
                    let cur = xs@.subrange(0, (b + 1) as int);
                    assert(cur.drop_last() =~= pre);
                    assert(cur.last() == xs@[b as int]);
                    assert(ext@ == acc@[a as int]@.push(xs@[b as int]));
                    assert(next@ == prev_next.push(ext));
                    assert(spec_extend_one(acc@[a as int]@, cur) == spec_extend_one(
                        acc@[a as int]@,
                        pre,
                    ).push(acc@[a as int]@.push(xs@[b as int])));
                    assert(view_combos(next@) =~= view_combos(prev_next).push(ext@));
                    assert(view_combos(next@) =~= spec_cross(
                        view_combos(acc@).subrange(0, a as int),
                        xs@,
                    ) + spec_extend_one(acc@[a as int]@, cur));
                }
                b += 1;
            }
            proof {
                assert(xs@.subrange(0, xs@.len() as int) =~= xs@);
                let pre = view_combos(acc@).subrange(0, a as int);
                let cur = view_combos(acc@).subrange(0, (a + 1) as int);
                assert(cur.drop_last() =~= pre);
                assert(cur.last() == acc@[a as int]@);
                assert(view_combos(next@) =~= spec_cross(cur, xs@));
            }
            a += 1;
        }
        proof {
            assert(view_combos(acc@).subrange(0, acc@.len() as int) =~= view_combos(acc@));
            let pre = view_combos(beat_fingerings_per_pitch@).subrange(0, i as int);
            let cur = view_combos(beat_fingerings_per_pitch@).subrange(0, (i + 1) as int);
            assert(cur.drop_last() =~= pre);
            assert(cur.last() == beat_fingerings_per_pitch@[i as int]@);
            assert(view_combos(next@) =~= spec_product(cur));
        }
        acc = next;
        i += 1;
    }
    proof {
        assert(view_combos(beat_fingerings_per_pitch@).subrange(
            0,
            beat_fingerings_per_pitch@.len() as int,
        ) =~= view_combos(beat_fingerings_per_pitch@));
    }

    let mut out: Vec<Vec<PitchFingering>> = Vec::new();
    let mut k: usize = 0;
    while k < acc.len()
        invariant
            k <= acc@.len(),
            view_combos(acc@) == spec_product(view_combos(beat_fingerings_per_pitch@)),
            view_combos(out@) == spec_filter_duplicate_strings(
                view_combos(acc@).subrange(0, k as int),
            ),
        decreases acc@.len() - k,
    {
        let keep = no_duplicate_strings(&acc[k]);
        if keep {
            let c = acc[k].clone();
            out.push(c);
        }
        proof {
            let pre = view_combos(acc@).subrange(0, k as int);
            let cur = view_combos(acc@).subrange(0, (k + 1) as int);
            assert(cur.drop_last() =~= pre);
            assert(cur.last() == acc@[k as int]@);
            assert(view_combos(out@) =~= spec_filter_duplicate_strings(cur));
        }
        k += 1;
    }
    proof {
        assert(view_combos(acc@).subrange(0, acc@.len() as int) =~= view_combos(acc@));
    }
    out
}

/// Every surviving combination picked one fingering per pitch list and repeats no
/// string: membership in the filtered product implies both.
pub proof fn lemma_filter_duplicate_strings_member(cs: Seq<Seq<PitchFingering>>, t: int)
    requires
        0 <= t < spec_filter_duplicate_strings(cs).len(),
    ensures
        spec_no_duplicate_strings(spec_filter_duplicate_strings(cs)[t]),
        cs.contains(spec_filter_duplicate_strings(cs)[t]),
    decreases cs.len(),
{
    if cs.len() > 0 {
        let f = spec_filter_duplicate_strings(cs);
        let fp = spec_filter_duplicate_strings(cs.drop_last());
        if t < fp.len() {
            lemma_filter_duplicate_strings_member(cs.drop_last(), t);
            assert(cs.drop_last().contains(fp[t]));
            let w = choose|w: int| 0 <= w < cs.drop_last().len() && cs.drop_last()[w] == fp[t];
            assert(cs[w] == fp[t]);
        } else {
            assert(cs[cs.len() - 1] == f[t]);
        }
    }
}

/// Every member of the product picks exactly one fingering from each list.
pub proof fn lemma_product_member(ls: Seq<Seq<PitchFingering>>, t: int)
    requires
        0 <= t < spec_product(ls).len(),
    ensures
        spec_product(ls)[t].len() == ls.len(),
        forall|k: int|
            0 <= k < ls.len() ==> ls[k].contains(#[trigger] spec_product(ls)[t][k]),
    decreases ls.len(),
{
    if ls.len() > 0 {
        let ps = spec_product(ls.drop_last());
        let xs = ls.last();
        lemma_cross_member(ps, xs, t);
        let (a, b) = choose|a: int, b: int|
            0 <= a < ps.len() && 0 <= b < xs.len() && spec_cross(ps, xs)[t] == (
            #[trigger] ps[a]).push(#[trigger] xs[b]);
        lemma_product_member(ls.drop_last(), a);
        let c = spec_product(ls)[t];
        assert(c == ps[a].push(xs[b]));
        assert(c.len() == ls.len());
        assert forall|k: int| 0 <= k < ls.len() implies ls[k].contains(#[trigger] c[k]) by {
            if k < ls.len() - 1 {
                assert(c[k] == ps[a][k]);
                assert(ls.drop_last()[k].contains(ps[a][k]));
            } else {
                assert(c[k] == xs[b]);
            }
        }
    }
}

proof fn lemma_extend_one_member(p: Seq<PitchFingering>, xs: Seq<PitchFingering>, t: int)
    requires
        0 <= t < spec_extend_one(p, xs).len(),
    ensures
        spec_extend_one(p, xs).len() == xs.len(),
        t < xs.len() && spec_extend_one(p, xs)[t] == p.push(xs[t]),
    decreases xs.len(),
{
    lemma_extend_one_len(p, xs);
    if t < xs.len() - 1 {
        lemma_extend_one_member(p, xs.drop_last(), t);
    }
}

proof fn lemma_extend_one_len(p: Seq<PitchFingering>, xs: Seq<PitchFingering>)
    ensures
        spec_extend_one(p, xs).len() == xs.len(),
    decreases xs.len(),
{
    if xs.len() > 0 {
        lemma_extend_one_len(p, xs.drop_last());
    }
}

proof fn lemma_cross_member(ps: Seq<Seq<PitchFingering>>, xs: Seq<PitchFingering>, t: int)
    requires
        0 <= t < spec_cross(ps, xs).len(),
    ensures
        exists|a: int, b: int|
            0 <= a < ps.len() && 0 <= b < xs.len() && spec_cross(ps, xs)[t] == (
            #[trigger] ps[a]).push(#[trigger] xs[b]),
    decreases ps.len(),
{
    let prefix = spec_cross(ps.drop_last(), xs);
    if t < prefix.len() {
        lemma_cross_member(ps.drop_last(), xs, t);
        let (a, b) = choose|a: int, b: int|
            0 <= a < ps.drop_last().len() && 0 <= b < xs.len() && prefix[t] == (
            #[trigger] ps.drop_last()[a]).push(#[trigger] xs[b]);
        assert(spec_cross(ps, xs)[t] == ps[a].push(xs[b]));
    } else {
        lemma_extend_one_member(ps.last(), xs, t - prefix.len());
        let a = ps.len() - 1;
        let b = t - prefix.len();
        assert(spec_cross(ps, xs)[t] == ps[a].push(xs[b]));
    }
}

/// A node of the layered arrangement graph: the virtual start, a silent beat, or
/// one fingering combination of a playable beat. `line_index` counts the retained
/// (non-measure-break) beats.
#[derive(Debug, Clone, PartialEq, Eq, Hash)]
pub enum Node {
    Start,
    Rest { line_index: u16 },
    Note { line_index: u16, beat_fingering_combo: BeatFingeringCombo },
}

/// The mathematical content of a graph node. Two nodes are equal as Rust values
/// exactly when their models are equal, so contracts speak of models.
pub enum NodeModel {
    Start,
    Rest { layer: int },
    Note { layer: int, fingerings: Seq<PitchFingering>, avg: Option<FretMean>, span: u8 },
}

impl NodeModel {
    /// The layer of the node; the virtual start sits before layer 0.
    pub open spec fn layer(self) -> int {
        match self {
            NodeModel::Start => -1,
            NodeModel::Rest { layer } => layer,
            NodeModel::Note { layer, .. } => layer,
        }
    }

    /// The average-fret metric carried by the node.
    pub open spec fn avg(self) -> Option<FretMean> {
        match self {
            NodeModel::Note { avg, .. } => avg,
            _ => None,
        }
    }

    /// The fret-span metric; rests and the start span nothing.
    pub open spec fn span(self) -> int {
        match self {
            NodeModel::Note { span, .. } => span as int,
            _ => 0,
        }
    }

    /// A note node carries metrics that agree with its fingerings.
    pub open spec fn wf(self) -> bool {
        match self {
            NodeModel::Note { fingerings, avg, span, .. } => {
                &&& avg == spec_avg_non_zero_fret(fingerings)
                &&& span == spec_span_or_zero(fingerings)
                &&& fingerings.len() <= 0xFFFF_FFFF
            },
            _ => true,
        }
    }
}

/// The model of a graph node.
pub open spec fn view_node(n: Node) -> NodeModel {
    match n {
        Node::Start => NodeModel::Start,
        Node::Rest { line_index } => NodeModel::Rest { layer: line_index as int },
        Node::Note { line_index, beat_fingering_combo } => NodeModel::Note {
            layer: line_index as int,
            fingerings: beat_fingering_combo.fingering_combo@,
            avg: beat_fingering_combo.avg_non_zero_fret,
            span: beat_fingering_combo.non_zero_fret_span,
        },
    }
}

/// The models of a vector of nodes.
pub open spec fn view_nodes(ns: Seq<Node>) -> Seq<NodeModel> {
    ns.map_values(|n: Node| view_node(n))
}

/// Duplicates a node; the copy has the same model.
fn clone_node(n: &Node) -> (r: Node)
    ensures
        view_node(r) == view_node(*n),
{
    match n {
        Node::Start => Node::Start,
        Node::Rest { line_index } => Node::Rest { line_index: *line_index },
        Node::Note { line_index, beat_fingering_combo } => Node::Note {
            line_index: *line_index,
            beat_fingering_combo: BeatFingeringCombo {
                fingering_combo: beat_fingering_combo.fingering_combo.clone(),
                avg_non_zero_fret: beat_fingering_combo.avg_non_zero_fret,
                non_zero_fret_span: beat_fingering_combo.non_zero_fret_span,
            },
        },
    }
}

/// The difficulty of the step from node `u` to node `v`: the jump between average
/// frets weighs 100, the fret span of `v` weighs 10, and its absolute average
/// height 1; the exact fractional total is truncated toward zero. Moving onto a
/// rest costs nothing.
pub open spec fn spec_edge_cost(u: NodeModel, v: NodeModel) -> int {
    if !(v is Note) {
        0
    } else {
        match v.avg() {
            None => 10 * v.span(),
            Some(av) => {
                let sv = av.fret_sum as int;
                let cv = av.fret_count as int;
                match u.avg() {
                    Some(au) => {
                        let su = au.fret_sum as int;
                        let cu = au.fret_count as int;
                        let d = sv * cu - su * cv;
                        let ad = if d < 0 {
                            -d
                        } else {
                            d
                        };
                        10 * v.span() + (100 * ad + sv * cu) / (cv * cu)
                    },
                    None => 10 * v.span() + sv / cv,
                }
            },
        }
    }
}

/// A well-formed mean is a ratio over a positive count of frets, each between 1 and 255.
pub open spec fn spec_mean_wf(m: FretMean) -> bool {
    1 <= m.fret_count && m.fret_count <= m.fret_sum <= 255 * m.fret_count
}

pub proof fn lemma_node_mean_wf(n: NodeModel)
    requires
        n.wf(),
        n.avg() is Some,
    ensures
        spec_mean_wf(n.avg().unwrap()),
        n.avg().unwrap().fret_count <= 0xFFFF_FFFF,
        n.avg().unwrap().fret_sum <= 255 * 0xFFFF_FFFF,
{
    match n {
        NodeModel::Note { fingerings, .. } => {
            lemma_nonzero_fret_bounds(fingerings);
        },
        _ => {},
    }
}

/// Edge costs between well-formed nodes lie between 0 and 28305.
pub proof fn lemma_edge_cost_bounds(u: NodeModel, v: NodeModel)
    requires
        u.wf(),
        v.wf(),
    ensures
        0 <= spec_edge_cost(u, v) <= 28305,
{
    if v is Note {
        match v.avg() {
            None => {
                assert(0 <= v.span() <= 255);
            },
            Some(av) => {
                lemma_node_mean_wf(v);
                let sv = av.fret_sum as int;
                let cv = av.fret_count as int;
                match u.avg() {
                    Some(au) => {
                        lemma_node_mean_wf(u);
                        let su = au.fret_sum as int;
                        let cu = au.fret_count as int;
                        let d = sv * cu - su * cv;
                        let ad = if d < 0 {
                            -d
                        } else {
                            d
                        };
                        assert(sv * cu <= 255 * (cv * cu) && su * cv <= 255 * (cv * cu) && cv * cu
                            >= 1) by (nonlinear_arith)
                            requires
                                1 <= cv <= sv <= 255 * cv,
                                1 <= cu <= su <= 255 * cu,
                        ;
                        assert(100 * ad + sv * cu <= 25755 * (cv * cu));
                        assert(0 <= (100 * ad + sv * cu) / (cv * cu) <= 25755) by (nonlinear_arith)
                            requires
                                cv * cu >= 1,
                                0 <= 100 * ad + sv * cu <= 25755 * (cv * cu),
                        ;
                    },
                    None => {
                        assert(0 <= sv / cv <= 255) by (nonlinear_arith)
                            requires
                                1 <= cv <= sv <= 255 * cv,
                        ;
                    },
                }
            },
        }
    }
}

/// Computes the difficulty of stepping from `current_node` to `next_node`.
pub fn calculate_node_difficulty(current_node: &Node, next_node: &Node) -> (c: i32)
    requires
        !(*next_node is Start),
        view_node(*current_node).wf(),
        view_node(*next_node).wf(),
    ensures
        c == spec_edge_cost(view_node(*current_node), view_node(*next_node)),
        0 <= c <= 28305,
{
    proof {
        lemma_edge_cost_bounds(view_node(*current_node), view_node(*next_node));
    }
    let (next_avg, next_span): (Option<FretMean>, u8) = match next_node {
        Node::Start => (None, 0),
        Node::Rest { .. } => {
            return 0;
        },
        Node::Note { beat_fingering_combo, .. } => (
            beat_fingering_combo.avg_non_zero_fret,
            beat_fingering_combo.non_zero_fret_span,
        ),
    };
    let current_avg: Option<FretMean> = match current_node {
        Node::Note { beat_fingering_combo, .. } => beat_fingering_combo.avg_non_zero_fret,
        _ => None,
    };
    match next_avg {
        None => 10 * next_span as i32,
        Some(av) => {
            let sv = av.fret_sum as u128;
            let cv = av.fret_count as u128;
            proof {
                lemma_node_mean_wf(view_node(*next_node));
            }
            match current_avg {
                Some(au) => {
                    let su = au.fret_sum as u128;
                    let cu = au.fret_count as u128;
                    proof {
                        lemma_node_mean_wf(view_node(*current_node));
                        assert(sv * cu <= 0xFF_0000_0000_0000_0000 && su * cv
                            <= 0xFF_0000_0000_0000_0000 && 1 <= cv * cu
                            <= 0x1_0000_0000_0000_0000 && sv * cu <= 255 * (cv * cu) && su * cv
                            <= 255 * (cv * cu)) by (nonlinear_arith)
                            requires
                                1 <= cv <= sv <= 255 * cv,
                                1 <= cu <= su <= 255 * cu,
                                cv <= 0x1_0000_0000,
                                cu <= 0x1_0000_0000,
                        ;
                    }
                    let a = sv * cu;
                    let b = su * cv;
                    let d = if a >= b {
                        a - b
                    } else {
                        b - a
                    };
                    proof {
                        assert(d <= 255 * (cv * cu));
                        assert(100 * d + a <= 25755 * (cv * cu));
                        assert((100 * d + a) / (cv * cu) <= 25755) by (nonlinear_arith)
                            requires
                                1 <= cv * cu,
                                0 <= 100 * d + a <= 25755 * (cv * cu),
                        ;
                    }
                    let q = (100 * d + a) / (cv * cu);
                    10 * next_span as i32 + q as i32
                },
                None => {
                    proof {
                        assert(sv / cv <= 255) by (nonlinear_arith)
                            requires
                                1 <= cv <= sv <= 255 * cv,
                        ;
                    }
                    let q = sv / cv;
                    10 * next_span as i32 + q as i32
                },
            }
        },
    }
}

/// Whether `node` sits in the final layer of a graph whose last layer is `last_index`.
pub fn node_is_goal(node: &Node, last_index: u16) -> (r: bool)
    ensures
        r == (view_node(*node).layer() == last_index),
{
    match node {
        Node::Start => false,
        Node::Rest { line_index } => *line_index == last_index,
        Node::Note { line_index, .. } => *line_index == last_index,
    }
}

/// The successors of `current` among `path_nodes`: exactly the nodes one layer
/// further on, each with the cost of stepping onto it, in list order.
pub open spec fn spec_next_nodes(current: NodeModel, path_nodes: Seq<NodeModel>) -> Seq<
    (NodeModel, int),
>
    decreases path_nodes.len(),
{
    if path_nodes.len() == 0 {
        Seq::empty()
    } else {
        spec_next_nodes(current, path_nodes.drop_last()) + if path_nodes.last().layer()
            == current.layer() + 1 {
            seq![(path_nodes.last(), spec_edge_cost(current, path_nodes.last()))]
        } else {
            Seq::empty()
        }
    }
}

/// The models of a successor list.
pub open spec fn view_succs(s: Seq<(Node, i32)>) -> Seq<(NodeModel, int)> {
    s.map_values(|e: (Node, i32)| (view_node(e.0), e.1 as int))
}

/// Computes the successors of `current_node` among `path_nodes` with their costs.
pub fn calc_next_nodes(current_node: &Node, path_nodes: &Vec<Node>) -> (r: Vec<(Node, i32)>)
    requires
        view_node(*current_node).wf(),
        view_node(*current_node).layer() < 65535,
        forall|i: int|
            0 <= i < path_nodes@.len() ==> !((#[trigger] path_nodes@[i]) is Start),
        forall|i: int| 0 <= i < path_nodes@.len() ==> view_node(#[trigger] path_nodes@[i]).wf(),
    ensures
        view_succs(r@) == spec_next_nodes(view_node(*current_node), view_nodes(path_nodes@)),
{
    let next_node_index: u16 = match current_node {
        Node::Start => 0,
        Node::Rest { line_index } => line_index + 1,
        Node::Note { line_index, .. } => line_index + 1,
    };
    let mut r: Vec<(Node, i32)> = Vec::new();
    let mut i: usize = 0;
    while i < path_nodes.len()
        invariant
            i <= path_nodes@.len(),
            view_node(*current_node).wf(),
            next_node_index == view_node(*current_node).layer() + 1,
            forall|t: int|
                0 <= t < path_nodes@.len() ==> !((#[trigger] path_nodes@[t]) is Start),
            forall|t: int| 0 <= t < path_nodes@.len() ==> view_node(#[trigger] path_nodes@[t]).wf(),
            view_succs(r@) == spec_next_nodes(
                view_node(*current_node),
                view_nodes(path_nodes@.subrange(0, i as int)),
            ),
        decreases path_nodes@.len() - i,
    {
        let node = &path_nodes[i];
        let layer: u16 = match node {
            Node::Start => 0,
            Node::Rest { line_index } => *line_index,
            Node::Note { line_index, .. } => *line_index,
        };
        let ghost pre_r = r@;
        if layer == next_node_index {
            let cost = calculate_node_difficulty(current_node, node);
            r.push((clone_node(node), cost));
        }
        proof {
            let pre = view_nodes(path_nodes@.subrange(0, i as int));
            let curn = path_nodes@.subrange(0, (i + 1) as int);
            let cur = view_nodes(curn);
            assert(cur.drop_last() =~= pre);
            assert(cur.last() == view_node(path_nodes@[i as int]));
            assert(view_succs(r@) =~= spec_next_nodes(view_node(*current_node), cur));
        }
        i += 1;
    }
    proof {
        assert(path_nodes@.subrange(0, path_nodes@.len() as int) =~= path_nodes@);
    }
    r
}


/// The total cost of a path: the sum of the costs of its edges.
pub open spec fn spec_path_cost(p: Seq<NodeModel>) -> int
    decreases p.len(),
{
    if p.len() <= 1 {
        0
    } else {
        spec_path_cost(p.drop_last()) + spec_edge_cost(p[p.len() - 2], p.last())
    }
}

/// A complete path through the layered graph: it leaves the virtual start, visits
/// one listed node per layer in order, and ends in the final layer `last_index`.
pub open spec fn spec_valid_full_path(
    path_nodes: Seq<NodeModel>,
    p: Seq<NodeModel>,
    last_index: u16,
) -> bool {
    &&& p.len() == last_index + 2
    &&& p[0] == NodeModel::Start
    &&& (forall|j: int| 1 <= j < p.len() ==> path_nodes.contains(#[trigger] p[j]))
    &&& (forall|j: int| 1 <= j < p.len() ==> (#[trigger] p[j]).layer() == j - 1)
}

/// The models of a list of scored paths.
pub open spec fn view_scored_paths(r: Seq<(Vec<Node>, i32)>) -> Seq<(Seq<NodeModel>, int)> {
    r.map_values(|e: (Vec<Node>, i32)| (view_nodes(e.0@), e.1 as int))
}

/// What the k-shortest-path search returns for a given node list, final layer and
/// requested count. The search is deterministic, so its outcome is a function of
/// these alone.
pub uninterp spec fn yen_paths(path_nodes: Seq<NodeModel>, last_index: u16, k: nat) -> Seq<
    (Seq<NodeModel>, int),
>;

/// Relies on pathfinding's `yen` (Yen's k-shortest-paths algorithm over Dijkstra),
/// searching the layered graph whose successor relation is `calc_next_nodes` and
/// whose goal test is `node_is_goal`, both verified above. Per its documentation
/// and source, `yen` returns up to `k` routes from the start to a goal node in
/// order of non-decreasing total cost, each paired with the sum of its edge costs,
/// without duplicates, and returns every existing route when fewer than `k` exist.
/// Layers strictly increase along edges, so every route is loopless and Yen's
/// enumeration reaches all of them. Nodes are compared by their `Eq` instance,
/// which agrees with equality of models, so the node models must be pairwise
/// distinct; edge costs lie in [0, 28305] and a route has at most 65536 edges, so
/// cost sums stay below `i32::MAX`. The search itself is deterministic (ties are
/// resolved by a deterministic sort), which `yen_paths` names.
#[verifier::external_body]
fn yen_k_shortest_paths(path_nodes: &Vec<Node>, last_index: u16, k: usize) -> (r: Vec<
    (Vec<Node>, i32),
>)
    requires
        1 <= k,
        last_index < 65535,
        forall|i: int| 0 <= i < path_nodes@.len() ==> !((#[trigger] path_nodes@[i]) is Start),
        forall|i: int| 0 <= i < path_nodes@.len() ==> view_node(#[trigger] path_nodes@[i]).wf(),
        forall|i: int|
            0 <= i < path_nodes@.len() ==> 0 <= view_node(#[trigger] path_nodes@[i]).layer()
                <= last_index,
        forall|i: int, j: int|
            0 <= i < j < path_nodes@.len() ==> view_node(#[trigger] path_nodes@[i]) != view_node(
                #[trigger] path_nodes@[j],
            ),
    ensures
        view_scored_paths(r@) == yen_paths(view_nodes(path_nodes@), last_index, k as nat),
        r@.len() <= k,
        forall|t: int|
            0 <= t < r@.len() ==> spec_valid_full_path(
                view_nodes(path_nodes@),
                view_nodes((#[trigger] r@[t]).0@),
                last_index,
            ),
        forall|t: int|
            0 <= t < r@.len() ==> (#[trigger] r@[t]).1 == spec_path_cost(view_nodes(r@[t].0@)),
        forall|t: int, u: int|
            0 <= t < u < r@.len() ==> (#[trigger] r@[t]).1 <= (#[trigger] r@[u]).1,
        forall|t: int, u: int|
            0 <= t < u < r@.len() ==> view_nodes((#[trigger] r@[t]).0@) != view_nodes(
                (#[trigger] r@[u]).0@,
            ),
        r@.len() < k ==> (forall|p: Seq<NodeModel>|
            spec_valid_full_path(view_nodes(path_nodes@), p, last_index) ==> (exists|t: int|
                0 <= t < r@.len() && view_nodes((#[trigger] r@[t]).0@) == p)),
{
    pathfinding::prelude::yen(
        &Node::Start,
        |node| calc_next_nodes(node, path_nodes),
        |node| node_is_goal(node, last_index),
        k,
    )
}


/// Why an arrangement request was rejected.
#[derive(Debug, Clone, PartialEq, Eq)]
pub enum ArrangementError {
    NoArrangementsRequested,
    TooManyArrangementsRequested,
    InvalidPitches(Vec<InvalidInput>),
    NoArrangementsFound,
}

/// The diagnostic line for one unplayable pitch.
pub open spec fn spec_invalid_line_message(e: InvalidInput) -> Seq<char> {
    "Pitch "@ + e.value@ + " on line "@ + spec_udec(e.line_number as int)
        + " cannot be played on any strings of the configured guitar."@
}

/// The diagnostic for a list of unplayable pitches, one line each.
pub open spec fn spec_invalid_pitches_message(s: Seq<InvalidInput>) -> Seq<char>
    decreases s.len(),
{
    if s.len() == 0 {
        Seq::empty()
    } else if s.len() == 1 {
        spec_invalid_line_message(s[0])
    } else {
        spec_invalid_pitches_message(s.drop_last()) + seq!['\n'] + spec_invalid_line_message(
            s.last(),
        )
    }
}

impl ArrangementError {
    pub fn message(&self) -> (r: String)
        ensures
            self is NoArrangementsRequested ==> r@ == "No arrangements were requested."@,
            self is TooManyArrangementsRequested ==> r@
                == "Too many arrangements to calculate. The maximum is 20."@,
            self is NoArrangementsFound ==> r@ == "No arrangements could be calculated."@,
            (forall|v: Vec<InvalidInput>|
                *self == ArrangementError::InvalidPitches(v) ==> r@
                    == spec_invalid_pitches_message(v@)),
    {
        match self {
            ArrangementError::NoArrangementsRequested => String::from_str(
                "No arrangements were requested.",
            ),
            ArrangementError::TooManyArrangementsRequested => String::from_str(
                "Too many arrangements to calculate. The maximum is 20.",
            ),
            ArrangementError::NoArrangementsFound => String::from_str(
                "No arrangements could be calculated.",
            ),
            ArrangementError::InvalidPitches(entries) => {
                let mut s = String::new();
                let mut i: usize = 0;
                while i < entries.len()
                    invariant
                        i <= entries@.len(),
                        s@ == spec_invalid_pitches_message(entries@.subrange(0, i as int)),
                    decreases entries@.len() - i,
                {
                    if i > 0 {
                        s.append("\n");
                    }
                    let e = &entries[i];
                    s.append("Pitch ");
                    s.append(e.value.as_str());
                    s.append(" on line ");
                    s.append(u16_to_string(e.line_number).as_str());
                    s.append(" cannot be played on any strings of the configured guitar.");
                    proof {
                        reveal_strlit("\n");
                        assert("\n"@ =~= seq!['\n']);
                        let pre = entries@.subrange(0, i as int);
                        let cur = entries@.subrange(0, (i + 1) as int);
                        assert(cur.drop_last() =~= pre);
                        assert(cur.last() == entries@[i as int]);
                        assert(s@ =~= spec_invalid_pitches_message(cur));
                    }
                    i += 1;
                }
                proof {
                    assert(entries@.subrange(0, entries@.len() as int) =~= entries@);
                }
                s
            },
        }
    }
}

/// The unplayable pitches of one playable beat, paired with its 1-based line number,
/// in beat order.
pub open spec fn spec_line_invalid(g: Guitar, pitches: Seq<Pitch>, line_number: int) -> Seq<
    (Pitch, int),
>
    decreases pitches.len(),
{
    if pitches.len() == 0 {
        Seq::empty()
    } else {
        spec_line_invalid(g, pitches.drop_last(), line_number) + if spec_pitch_fingerings(
            g.string_ranges@,
            pitches.last(),
        ).len() == 0 {
            seq![(pitches.last(), line_number)]
        } else {
            Seq::<(Pitch, int)>::empty()
        }
    }
}

/// Every unplayable pitch of the whole input, with its 1-based line number, in
/// input order: the whole input is examined before anything is reported.
pub open spec fn spec_invalid_entries(g: Guitar, lines: Seq<Line<Vec<Pitch>>>) -> Seq<(Pitch, int)>
    decreases lines.len(),
{
    if lines.len() == 0 {
        Seq::empty()
    } else {
        spec_invalid_entries(g, lines.drop_last()) + match lines.last() {
            Line::Playable(ps) => spec_line_invalid(g, ps@, lines.len() as int),
            _ => Seq::<(Pitch, int)>::empty(),
        }
    }
}

/// The fingering candidates of one beat match its pitches.
pub open spec fn spec_fingered_line_ok(
    g: Guitar,
    input: Line<Vec<Pitch>>,
    out: Line<Vec<Vec<PitchFingering>>>,
) -> bool {
    match input {
        Line::MeasureBreak => out is MeasureBreak,
        Line::Rest => out is Rest,
        Line::Playable(ps) => (out matches Line::Playable(fs) && fs@.len() == ps@.len() && (
        forall|k: int|
            0 <= k < ps@.len() ==> (#[trigger] fs@[k])@ == spec_pitch_fingerings(
                g.string_ranges@,
                ps@[k],
            ))),
    }
}

/// Looks up the fingering candidates for every pitch of every beat. If any pitch is
/// unreachable on the configured guitar, the whole input is rejected with one
/// aggregated diagnostic naming every offending pitch and its 1-based line number.
pub fn validate_fingerings(guitar: &Guitar, input_pitches: &Vec<Line<Vec<Pitch>>>) -> (r: Result<
    Vec<Line<Vec<Vec<PitchFingering>>>>,
    ArrangementError,
>)
    requires
        guitar.wf(),
        input_pitches@.len() <= 65535,
    ensures
        r is Ok <==> spec_invalid_entries(*guitar, input_pitches@).len() == 0,
        r matches Ok(v) ==> v@.len() == input_pitches@.len() && (forall|i: int|
            0 <= i < v@.len() ==> spec_fingered_line_ok(
                *guitar,
                input_pitches@[i],
                #[trigger] v@[i],
            )),
        r matches Err(e) ==> (e matches ArrangementError::InvalidPitches(list) && {
            let entries = spec_invalid_entries(*guitar, input_pitches@);
            &&& list@.len() == entries.len()
            &&& (forall|t: int|
                0 <= t < entries.len() ==> (#[trigger] list@[t]).line_number == entries[t].1)
            &&& (forall|t: int|
                0 <= t < entries.len() ==> (#[trigger] list@[t]).value@ == entries[t].0.spec_name())
        }),
{
    let mut fingerings: Vec<Line<Vec<Vec<PitchFingering>>>> = Vec::new();
    let mut invalid: Vec<InvalidInput> = Vec::new();
    let ghost g = *guitar;
    proof {
        assert forall|s: int|
            0 <= s < guitar.string_ranges@.len() implies (
        #[trigger] guitar.string_ranges@[s]).1@.len() <= 256 by {
            assert(guitar.string_ranges@[s].1@.len() == guitar.num_frets + 1);
        }
    }
    let mut i: usize = 0;
    while i < input_pitches.len()
        invariant
            i <= input_pitches@.len(),
            input_pitches@.len() <= 65535,
            guitar.wf(),
            g == *guitar,
            forall|s: int|
                0 <= s < guitar.string_ranges@.len() ==> (
                #[trigger] guitar.string_ranges@[s]).1@.len() <= 256,
            fingerings@.len() == i,
            forall|t: int|
                0 <= t < i ==> spec_fingered_line_ok(
                    g,
                    input_pitches@[t],
                    #[trigger] fingerings@[t],
                ),
            invalid@.len() == spec_invalid_entries(g, input_pitches@.subrange(0, i as int)).len(),
            forall|t: int|
                0 <= t < invalid@.len() ==> (#[trigger] invalid@[t]).line_number
                    == spec_invalid_entries(g, input_pitches@.subrange(0, i as int))[t].1,
            forall|t: int|
                0 <= t < invalid@.len() ==> (#[trigger] invalid@[t]).value@ == spec_invalid_entries(
                    g,
                    input_pitches@.subrange(0, i as int),
                )[t].0.spec_name(),
        decreases input_pitches@.len() - i,
    {
        let ghost pre_entries = spec_invalid_entries(g, input_pitches@.subrange(0, i as int));
        let line = &input_pitches[i];
        match line {
            Line::MeasureBreak => {
                fingerings.push(Line::MeasureBreak);
            },
            Line::Rest => {
                fingerings.push(Line::Rest);
            },
            Line::Playable(beat_pitches) => {
                let mut fs: Vec<Vec<PitchFingering>> = Vec::new();
                let mut k: usize = 0;
                while k < beat_pitches.len()
                    invariant
                        k <= beat_pitches@.len(),
                        i < input_pitches@.len(),
                        input_pitches@.len() <= 65535,
                        g == *guitar,
                        input_pitches@[i as int] == Line::<Vec<Pitch>>::Playable(*beat_pitches),
                        forall|s: int|
                            0 <= s < guitar.string_ranges@.len() ==> (
                            #[trigger] guitar.string_ranges@[s]).1@.len() <= 256,
                        fs@.len() == k,
                        forall|t: int|
                            0 <= t < k ==> (#[trigger] fs@[t])@ == spec_pitch_fingerings(
                                g.string_ranges@,
                                beat_pitches@[t],
                            ),
                        invalid@.len() == pre_entries.len() + spec_line_invalid(
                            g,
                            beat_pitches@.subrange(0, k as int),
                            i + 1,
                        ).len(),
                        forall|t: int|
                            0 <= t < invalid@.len() ==> (#[trigger] invalid@[t]).line_number == (
                            pre_entries + spec_line_invalid(
                                g,
                                beat_pitches@.subrange(0, k as int),
                                i + 1,
                            ))[t].1,
                        forall|t: int|
                            0 <= t < invalid@.len() ==> (#[trigger] invalid@[t]).value@ == (
                            pre_entries + spec_line_invalid(
                                g,
                                beat_pitches@.subrange(0, k as int),
                                i + 1,
                            ))[t].0.spec_name(),
                    decreases beat_pitches@.len() - k,
                {
                    let p = beat_pitches[k];
                    let pf = generate_pitch_fingerings(&guitar.string_ranges, &p);
                    if pf.len() == 0 {
                        invalid.push(
                            InvalidInput { value: p.name(), line_number: (i as u16) + 1 },
                        );
                    }
                    fs.push(pf);
                    proof {
                        let pre = beat_pitches@.subrange(0, k as int);
                        let cur = beat_pitches@.subrange(0, (k + 1) as int);
                        assert(cur.drop_last() =~= pre);
                        assert(cur.last() == beat_pitches@[k as int]);
                    }
                    k += 1;
                }
                proof {
                    assert(beat_pitches@.subrange(0, beat_pitches@.len() as int)
                        =~= beat_pitches@);
                }
                fingerings.push(Line::Playable(fs));
            },
        }
        proof {
            let pre = input_pitches@.subrange(0, i as int);
            let cur = input_pitches@.subrange(0, (i + 1) as int);
            assert(cur.drop_last() =~= pre);
            assert(cur.last() == input_pitches@[i as int]);
            assert(cur.len() as int == i + 1);
        }
        i += 1;
    }
    proof {
        assert(input_pitches@.subrange(0, input_pitches@.len() as int) =~= input_pitches@);
    }
    if invalid.len() == 0 {
        proof {
            assert(spec_invalid_entries(g, input_pitches@).len() == 0);
        }
        Ok(fingerings)
    } else {
        Err(ArrangementError::InvalidPitches(invalid))
    }
}


/// One complete ranked solution: the ordered beat results (with measure breaks
/// restored), the summed difficulty of its path, and the widest fret span used.
#[derive(Debug, Clone, PartialEq, Eq)]
pub struct Arrangement {
    pub lines: Vec<Line<Vec<PitchFingering>>>,
    pub difficulty: i32,
    pub max_fret_span: u8,
}

impl Arrangement {
    pub fn max_fret_span(&self) -> (r: u8)
        ensures
            r == self.max_fret_span,
    {
        self.max_fret_span
    }
}

/// The model of one produced beat line.
pub open spec fn view_line(l: Line<Vec<PitchFingering>>) -> Line<Seq<PitchFingering>> {
    match l {
        Line::MeasureBreak => Line::MeasureBreak,
        Line::Rest => Line::Rest,
        Line::Playable(v) => Line::Playable(v@),
    }
}

/// The models of a vector of produced beat lines.
pub open spec fn view_lines(s: Seq<Line<Vec<PitchFingering>>>) -> Seq<Line<Seq<PitchFingering>>> {
    s.map_values(|l: Line<Vec<PitchFingering>>| view_line(l))
}

/// The beat line that a path node stands for.
pub open spec fn spec_node_line(n: NodeModel) -> Line<Seq<PitchFingering>> {
    match n {
        NodeModel::Note { fingerings, .. } => Line::Playable(fingerings),
        _ => Line::Rest,
    }
}

/// The beat lines of a path, the virtual start dropped.
pub open spec fn spec_path_lines(p: Seq<NodeModel>) -> Seq<Line<Seq<PitchFingering>>>
    decreases p.len(),
{
    if p.len() == 0 {
        Seq::empty()
    } else {
        spec_path_lines(p.drop_last()) + if p.last() is Start {
            Seq::<Line<Seq<PitchFingering>>>::empty()
        } else {
            seq![spec_node_line(p.last())]
        }
    }
}

/// The widest fret span among the note nodes of a path, 0 if there is none.
pub open spec fn spec_path_max_span(p: Seq<NodeModel>) -> int
    decreases p.len(),
{
    if p.len() == 0 {
        0
    } else {
        let rest = spec_path_max_span(p.drop_last());
        if p.last() is Note && p.last().span() > rest {
            p.last().span()
        } else {
            rest
        }
    }
}

/// How many of the given positions lie strictly below `p`.
pub open spec fn spec_count_lt(breaks: Seq<int>, p: int) -> int
    decreases breaks.len(),
{
    if breaks.len() == 0 {
        0
    } else {
        spec_count_lt(breaks.drop_last(), p) + if breaks.last() < p {
            1int
        } else {
            0
        }
    }
}

/// `lines` with a measure break inserted at each of the given final positions.
pub open spec fn spec_weave(lines: Seq<Line<Seq<PitchFingering>>>, breaks: Seq<int>) -> Seq<
    Line<Seq<PitchFingering>>,
> {
    Seq::new(
        (lines.len() + breaks.len()) as nat,
        |p: int|
            if breaks.contains(p) {
                Line::MeasureBreak
            } else {
                lines[p - spec_count_lt(breaks, p)]
            },
    )
}

proof fn lemma_count_lt_step(breaks: Seq<int>, p: int)
    requires
        forall|a: int, b: int|
            0 <= a < b < breaks.len() ==> #[trigger] breaks[a] < #[trigger] breaks[b],
    ensures
        spec_count_lt(breaks, p + 1) == spec_count_lt(breaks, p) + if breaks.contains(p) {
            1int
        } else {
            0
        },
    decreases breaks.len(),
{
    if breaks.len() > 0 {
        let d = breaks.drop_last();
        assert forall|a: int, b: int|
            0 <= a < b < d.len() implies #[trigger] d[a] < #[trigger] d[b] by {
            assert(d[a] == breaks[a] && d[b] == breaks[b]);
        }
        lemma_count_lt_step(d, p);
        if breaks.last() == p {
            assert(breaks.contains(p));
            if d.contains(p) {
                let w = choose|w: int| 0 <= w < d.len() && d[w] == p;
                assert(breaks[w] == p && breaks[breaks.len() - 1] == p);
                assert(false);
            }
        } else {
            if breaks.contains(p) {
                let w = choose|w: int| 0 <= w < breaks.len() && breaks[w] == p;
                assert(d[w] == p);
                assert(d.contains(p));
            }
            if d.contains(p) {
                let w = choose|w: int| 0 <= w < d.len() && d[w] == p;
                assert(breaks[w] == p);
                assert(breaks.contains(p));
            }
        }
    }
}

proof fn lemma_count_lt_zero(breaks: Seq<int>, p: int)
    requires
        forall|j: int| 0 <= j < breaks.len() ==> #[trigger] breaks[j] >= p,
    ensures
        spec_count_lt(breaks, p) == 0,
    decreases breaks.len(),
{
    if breaks.len() > 0 {
        lemma_count_lt_zero(breaks.drop_last(), p);
    }
}

proof fn lemma_count_lt_all(breaks: Seq<int>, p: int)
    requires
        forall|j: int| 0 <= j < breaks.len() ==> #[trigger] breaks[j] < p,
    ensures
        spec_count_lt(breaks, p) == breaks.len(),
    decreases breaks.len(),
{
    if breaks.len() > 0 {
        lemma_count_lt_all(breaks.drop_last(), p);
    }
}

/// Converts one shortest path back into a full arrangement: the virtual start is
/// dropped, rest nodes become rest beats, note nodes carry their fingerings, and
/// measure breaks are restored at their recorded positions. The difficulty is the
/// path's accumulated cost; the span is the widest note span on the path.
pub fn process_path(
    path_nodes: &Vec<Node>,
    path_difficulty: i32,
    measure_break_indices: &Vec<usize>,
) -> (r: Arrangement)
    requires
        forall|a: int, b: int|
            0 <= a < b < measure_break_indices@.len() ==> #[trigger] measure_break_indices@[a] < (
            #[trigger] measure_break_indices@[b]),
        forall|j: int|
            0 <= j < measure_break_indices@.len() ==> #[trigger] measure_break_indices@[j] as int
                <= spec_path_lines(view_nodes(path_nodes@)).len() + j,
        spec_path_lines(view_nodes(path_nodes@)).len() + measure_break_indices@.len() <= 0xFFFF_FFFF,
    ensures
        view_lines(r.lines@) == spec_weave(
            spec_path_lines(view_nodes(path_nodes@)),
            measure_break_indices@.map_values(|u: usize| u as int),
        ),
        r.difficulty == path_difficulty,
        r.max_fret_span == spec_path_max_span(view_nodes(path_nodes@)),
{
    let ghost pls = spec_path_lines(view_nodes(path_nodes@));
    let ghost bks = measure_break_indices@.map_values(|u: usize| u as int);

    let mut plain: Vec<Line<Vec<PitchFingering>>> = Vec::new();
    let mut max_span: u8 = 0;
    let mut i: usize = 0;
    while i < path_nodes.len()
        invariant
            i <= path_nodes@.len(),
            view_lines(plain@) == spec_path_lines(view_nodes(path_nodes@.subrange(0, i as int))),
            max_span == spec_path_max_span(view_nodes(path_nodes@.subrange(0, i as int))),
        decreases path_nodes@.len() - i,
    {
        let node = &path_nodes[i];
        match node {
            Node::Start => {},
            Node::Rest { .. } => {
                plain.push(Line::Rest);
            },
            Node::Note { beat_fingering_combo, .. } => {
                plain.push(Line::Playable(beat_fingering_combo.fingering_combo.clone()));
                if beat_fingering_combo.non_zero_fret_span > max_span {
                    max_span = beat_fingering_combo.non_zero_fret_span;
                }
            },
        }
        proof {
            let pre = view_nodes(path_nodes@.subrange(0, i as int));
            let cur = view_nodes(path_nodes@.subrange(0, (i + 1) as int));
            assert(cur.drop_last() =~= pre);
            assert(cur.last() == view_node(path_nodes@[i as int]));
            assert(view_lines(plain@) =~= spec_path_lines(cur));
        }
        i += 1;
    }
    proof {
        assert(path_nodes@.subrange(0, path_nodes@.len() as int) =~= path_nodes@);
    }

    let total = plain.len() + measure_break_indices.len();
    proof {
        assert forall|j: int| 0 <= j < bks.len() implies #[trigger] bks[j] >= 0 by {
            assert(bks[j] == measure_break_indices@[j] as int);
        }
        lemma_count_lt_zero(bks, 0);
    }
    let mut lines: Vec<Line<Vec<PitchFingering>>> = Vec::new();
    let mut li: usize = 0;
    let mut bi: usize = 0;
    while li + bi < total
        invariant
            view_lines(plain@) == pls,
            bks == measure_break_indices@.map_values(|u: usize| u as int),
            total == pls.len() + bks.len(),
            li <= pls.len(),
            bi <= bks.len(),
            lines@.len() == li + bi,
            bi == spec_count_lt(bks, (li + bi) as int),
            forall|a: int, b: int| 0 <= a < b < bks.len() ==> #[trigger] bks[a] < #[trigger] bks[b],
            forall|j: int| 0 <= j < bks.len() ==> #[trigger] bks[j] <= pls.len() + j,
            forall|j: int| bi <= j < bks.len() ==> #[trigger] bks[j] >= li + bi,
            forall|j: int| 0 <= j < bi ==> #[trigger] bks[j] < li + bi,
            forall|q: int|
                0 <= q < li + bi ==> #[trigger] view_lines(lines@)[q] == spec_weave(pls, bks)[q],
        decreases total - li - bi,
    {
        let ghost p = (li + bi) as int;
        let ghost lines0 = lines@;
        let take_break = bi < measure_break_indices.len() && measure_break_indices[bi] == li + bi;
        if take_break {
            lines.push(Line::MeasureBreak);
            proof {
                assert(bks[bi as int] == p);
                assert(bks.contains(p));
                lemma_count_lt_step(bks, p);
            }
            bi += 1;
        } else {
            proof {
                if bks.contains(p) {
                    let w = choose|w: int| 0 <= w < bks.len() && bks[w] == p;
                    if w < bi {
                        assert(bks[w] < p);
                        assert(false);
                    } else if w == bi {
                        assert(false);
                    } else {
                        assert(bks[bi as int] < bks[w]);
                        assert(bks[bi as int] >= p);
                        assert(false);
                    }
                }
                assert(!bks.contains(p));
                if li >= pls.len() {
                    assert(bi < bks.len());
                    assert(bks[bi as int] == measure_break_indices@[bi as int] as int);
                    assert(bks[bi as int] <= pls.len() + bi);
                    assert(bks[bi as int] >= li + bi);
                    assert(false);
                }
                assert(li < pls.len());
                lemma_count_lt_step(bks, p);
            }
            let one = match &plain[li] {
                Line::MeasureBreak => Line::MeasureBreak,
                Line::Rest => Line::Rest,
                Line::Playable(v) => Line::Playable(v.clone()),
            };
            lines.push(one);
            proof {
                assert(view_lines(plain@)[li as int] == view_line(plain@[li as int]));
                assert(view_line(lines@.last()) == view_line(plain@[li as int]));
                assert(view_lines(lines@).last() == view_line(lines@.last()));
            }
            li += 1;
        }
        proof {
            assert forall|q: int|
                0 <= q < li + bi implies #[trigger] view_lines(lines@)[q] == spec_weave(
                pls,
                bks,
            )[q] by {
                assert(view_lines(lines@)[q] == view_line(lines@[q]));
                if q < p {
                    assert(lines@[q] == lines0[q]);
                    assert(view_lines(lines0)[q] == view_line(lines0[q]));
                } else {
                    assert(q == p);
                    assert(lines@[q] == lines@.last());
                }
            }
        }
    }
    proof {
        assert(li == pls.len());
        assert(view_lines(lines@) =~= spec_weave(pls, bks));
    }
    Arrangement { lines, difficulty: path_difficulty, max_fret_span: max_span }
}


/// Extending one combination by pairwise distinct fingerings gives pairwise
/// distinct combinations.
proof fn lemma_extend_one_distinct(p: Seq<PitchFingering>, xs: Seq<PitchFingering>)
    requires
        forall|a: int, b: int| 0 <= a < b < xs.len() ==> xs[a] != xs[b],
    ensures
        forall|a: int, b: int|
            0 <= a < b < spec_extend_one(p, xs).len() ==> spec_extend_one(p, xs)[a]
                != spec_extend_one(p, xs)[b],
{
    let e = spec_extend_one(p, xs);
    assert forall|a: int, b: int| 0 <= a < b < e.len() implies e[a] != e[b] by {
        lemma_extend_one_member(p, xs, a);
        lemma_extend_one_member(p, xs, b);
        assert(e[a].last() == xs[a] && e[b].last() == xs[b]);
    }
}

/// Crossing pairwise distinct, equally long combinations with pairwise distinct
/// fingerings gives pairwise distinct combinations.
proof fn lemma_cross_distinct(ps: Seq<Seq<PitchFingering>>, xs: Seq<PitchFingering>, len: int)
    requires
        forall|a: int, b: int| 0 <= a < b < ps.len() ==> ps[a] != ps[b],
        forall|a: int| 0 <= a < ps.len() ==> (#[trigger] ps[a]).len() == len,
        forall|a: int, b: int| 0 <= a < b < xs.len() ==> xs[a] != xs[b],
    ensures
        forall|a: int, b: int|
            0 <= a < b < spec_cross(ps, xs).len() ==> spec_cross(ps, xs)[a] != spec_cross(
                ps,
                xs,
            )[b],
    decreases ps.len(),
{
    if ps.len() > 0 {
        let d = ps.drop_last();
        assert forall|a: int, b: int| 0 <= a < b < d.len() implies d[a] != d[b] by {
            assert(d[a] == ps[a] && d[b] == ps[b]);
        }
        assert forall|a: int| 0 <= a < d.len() implies (#[trigger] d[a]).len() == len by {
            assert(d[a] == ps[a]);
        }
        lemma_cross_distinct(d, xs, len);
        lemma_extend_one_distinct(ps.last(), xs);
        let c = spec_cross(ps, xs);
        let pre = spec_cross(d, xs);
        let ext = spec_extend_one(ps.last(), xs);
        assert(c == pre + ext);
        lemma_extend_one_len(ps.last(), xs);
        assert forall|a: int, b: int| 0 <= a < b < c.len() implies c[a] != c[b] by {
            if b < pre.len() {
                assert(c[a] == pre[a] && c[b] == pre[b]);
            } else if a >= pre.len() {
                assert(c[a] == ext[a - pre.len()] && c[b] == ext[b - pre.len()]);
                lemma_extend_one_member(ps.last(), xs, a - pre.len());
                lemma_extend_one_member(ps.last(), xs, b - pre.len());
                assert(c[a].last() == xs[a - pre.len()] && c[b].last() == xs[b - pre.len()]);
            } else {
                assert(c[a] == pre[a] && c[b] == ext[b - pre.len()]);
                lemma_cross_member(d, xs, a);
                let (u, v) = choose|u: int, v: int|
                    0 <= u < d.len() && 0 <= v < xs.len() && pre[a] == (#[trigger] d[u]).push(
                        #[trigger] xs[v],
                    );
                lemma_extend_one_member(ps.last(), xs, b - pre.len());
                assert(c[b] == ps.last().push(xs[b - pre.len()]));
                assert(d[u] == ps[u]);
                assert(ps[u] != ps[ps.len() - 1]);
                assert(ps[u].len() == len && ps[ps.len() - 1].len() == len);
                if forall|w: int| 0 <= w < len ==> #[trigger] ps[u][w] == ps[ps.len() - 1][w] {
                    assert(ps[u] =~= ps[ps.len() - 1]);
                    assert(false);
                }
                let w = choose|w: int| 0 <= w < len && #[trigger] ps[u][w] != ps[ps.len() - 1][w];
                assert(c[a][w] == ps[u][w] && c[b][w] == ps[ps.len() - 1][w]);
            }
        }
    }
}

/// The product of lists of pairwise distinct fingerings has pairwise distinct
/// combinations.
proof fn lemma_product_distinct(ls: Seq<Seq<PitchFingering>>)
    requires
        forall|k: int, a: int, b: int|
            0 <= k < ls.len() && 0 <= a < b < ls[k].len() ==> #[trigger] ls[k][a] != #[trigger] ls[k][b],
    ensures
        forall|a: int, b: int|
            0 <= a < b < spec_product(ls).len() ==> spec_product(ls)[a] != spec_product(ls)[b],
    decreases ls.len(),
{
    if ls.len() > 0 {
        let d = ls.drop_last();
        assert forall|k: int, a: int, b: int|
            0 <= k < d.len() && 0 <= a < b < d[k].len() implies #[trigger] d[k][a]
            != #[trigger] d[k][b] by {
            assert(d[k] == ls[k]);
            assert(ls[k][a] != ls[k][b]);
        }
        lemma_product_distinct(d);
        let ps = spec_product(d);
        assert forall|a: int| 0 <= a < ps.len() implies (#[trigger] ps[a]).len() == d.len() by {
            lemma_product_member(d, a);
        }
        assert(ls[ls.len() - 1] == ls.last());
        lemma_cross_distinct(ps, ls.last(), d.len() as int);
    }
}

/// Filtering keeps combinations pairwise distinct and in order.
proof fn lemma_filter_distinct(cs: Seq<Seq<PitchFingering>>)
    requires
        forall|a: int, b: int| 0 <= a < b < cs.len() ==> cs[a] != cs[b],
    ensures
        forall|a: int, b: int|
            0 <= a < b < spec_filter_duplicate_strings(cs).len() ==> spec_filter_duplicate_strings(
                cs,
            )[a] != spec_filter_duplicate_strings(cs)[b],
{
    let f = spec_filter_duplicate_strings(cs);
    assert forall|a: int, b: int| 0 <= a < b < f.len() implies f[a] != f[b] by {
        lemma_filter_order(cs, a, b);
    }
}

/// Two filtered positions come from two input positions in the same order.
proof fn lemma_filter_order(cs: Seq<Seq<PitchFingering>>, a: int, b: int)
    requires
        0 <= a < b < spec_filter_duplicate_strings(cs).len(),
        forall|x: int, y: int| 0 <= x < y < cs.len() ==> cs[x] != cs[y],
    ensures
        spec_filter_duplicate_strings(cs)[a] != spec_filter_duplicate_strings(cs)[b],
    decreases cs.len(),
{
    if cs.len() > 0 {
        let d = cs.drop_last();
        let f = spec_filter_duplicate_strings(cs);
        let fp = spec_filter_duplicate_strings(d);
        assert forall|x: int, y: int| 0 <= x < y < d.len() implies d[x] != d[y] by {
            assert(d[x] == cs[x] && d[y] == cs[y]);
        }
        if b < fp.len() {
            lemma_filter_order(d, a, b);
        } else {
            assert(f[b] == cs.last());
            lemma_filter_duplicate_strings_member(d, a);
            assert(d.contains(fp[a]));
            let w = choose|w: int| 0 <= w < d.len() && d[w] == fp[a];
            assert(cs[w] == fp[a]);
            assert(cs[w] != cs[cs.len() - 1]);
        }
    }
}


/// The requested number of arrangements may not exceed this.
pub const MAX_NUM_ARRANGEMENTS: u8 = 20;

/// Whether any line of the input is playable.
pub open spec fn spec_has_playable(lines: Seq<Line<Vec<Pitch>>>) -> bool {
    exists|i: int| 0 <= i < lines.len() && (#[trigger] lines[i]) is Playable
}

/// The index of the first playable line (the length when there is none).
pub open spec fn spec_first_playable(lines: Seq<Line<Vec<Pitch>>>) -> int
    decreases lines.len(),
{
    if lines.len() == 0 {
        0
    } else if lines[0] is Playable {
        0
    } else {
        1 + spec_first_playable(lines.subrange(1, lines.len() as int))
    }
}

/// With a playable line present, the first playable index is a valid position
/// and names a playable line.
pub proof fn lemma_first_playable_lt(lines: Seq<Line<Vec<Pitch>>>)
    requires
        spec_has_playable(lines),
    ensures
        0 <= spec_first_playable(lines) < lines.len(),
        lines[spec_first_playable(lines)] is Playable,
    decreases lines.len(),
{
    let w = choose|w: int| 0 <= w < lines.len() && (#[trigger] lines[w]) is Playable;
    if !(lines[0] is Playable) {
        let d = lines.subrange(1, lines.len() as int);
        assert(d[w - 1] == lines[w]);
        assert(spec_has_playable(d));
        lemma_first_playable_lt(d);
        assert(lines[1 + spec_first_playable(d)] == d[spec_first_playable(d)]);
    }
}

proof fn lemma_first_playable_char(lines: Seq<Line<Vec<Pitch>>>, i: int)
    requires
        0 <= i < lines.len(),
        lines[i] is Playable,
        forall|t: int| 0 <= t < i ==> !((#[trigger] lines[t]) is Playable),
    ensures
        spec_first_playable(lines) == i,
    decreases lines.len(),
{
    if i > 0 {
        let d = lines.subrange(1, lines.len() as int);
        lemma_first_playable_char(d, i - 1);
    }
}

/// How many lines are kept when measure breaks are dropped.
pub open spec fn spec_retained_count(lines: Seq<Line<Vec<Pitch>>>) -> int
    decreases lines.len(),
{
    if lines.len() == 0 {
        0
    } else {
        spec_retained_count(lines.drop_last()) + if lines.last() is MeasureBreak {
            0
        } else {
            1int
        }
    }
}

/// The lines kept when measure breaks are dropped, in order.
pub open spec fn spec_retained_lines(lines: Seq<Line<Vec<Pitch>>>) -> Seq<Line<Vec<Pitch>>>
    decreases lines.len(),
{
    if lines.len() == 0 {
        Seq::empty()
    } else {
        spec_retained_lines(lines.drop_last()) + if lines.last() is MeasureBreak {
            Seq::<Line<Vec<Pitch>>>::empty()
        } else {
            seq![lines.last()]
        }
    }
}

/// The positions of the measure-break lines, in order.
pub open spec fn spec_break_positions(lines: Seq<Line<Vec<Pitch>>>) -> Seq<int>
    decreases lines.len(),
{
    if lines.len() == 0 {
        Seq::empty()
    } else {
        spec_break_positions(lines.drop_last()) + if lines.last() is MeasureBreak {
            seq![lines.len() - 1]
        } else {
            Seq::<int>::empty()
        }
    }
}

proof fn lemma_break_positions_facts(lines: Seq<Line<Vec<Pitch>>>)
    ensures
        spec_break_positions(lines).len() + spec_retained_count(lines) == lines.len(),
        spec_retained_lines(lines).len() == spec_retained_count(lines),
        forall|a: int, b: int|
            0 <= a < b < spec_break_positions(lines).len() ==> #[trigger] spec_break_positions(
                lines,
            )[a] < #[trigger] spec_break_positions(lines)[b],
        forall|a: int|
            0 <= a < spec_break_positions(lines).len() ==> 0 <= #[trigger] spec_break_positions(
                lines,
            )[a] < lines.len(),
        forall|q: int|
            0 <= q < lines.len() ==> (spec_break_positions(lines).contains(q) <==> (
            #[trigger] lines[q]) is MeasureBreak),
        forall|t: int|
            0 <= t < spec_retained_lines(lines).len() ==> !((#[trigger] spec_retained_lines(
                lines,
            )[t]) is MeasureBreak),
    decreases lines.len(),
{
    if lines.len() > 0 {
        let d = lines.drop_last();
        lemma_break_positions_facts(d);
        let bp = spec_break_positions(lines);
        let bpd = spec_break_positions(d);
        assert forall|q: int|
            0 <= q < lines.len() implies (bp.contains(q) <==> (
        #[trigger] lines[q]) is MeasureBreak) by {
            if q < lines.len() - 1 {
                assert(d[q] == lines[q]);
                if bpd.contains(q) {
                    let w = choose|w: int| 0 <= w < bpd.len() && bpd[w] == q;
                    assert(bp[w] == q);
                }
                if bp.contains(q) {
                    let w = choose|w: int| 0 <= w < bp.len() && bp[w] == q;
                    if w < bpd.len() {
                        assert(bpd[w] == q);
                    } else {
                        assert(bp[w] == lines.len() - 1);
                    }
                }
            } else {
                if lines.last() is MeasureBreak {
                    assert(bp[bp.len() - 1] == q);
                } else {
                    if bp.contains(q) {
                        let w = choose|w: int| 0 <= w < bp.len() && bp[w] == q;
                        assert(bpd[w] == q);
                        assert(bpd[w] < d.len());
                    }
                }
            }
        }
    }
}

/// For a line that is not a measure break, its retained position is its position
/// less the breaks before it.
proof fn lemma_retained_index(lines: Seq<Line<Vec<Pitch>>>, q: int)
    requires
        0 <= q < lines.len(),
        !(lines[q] is MeasureBreak),
    ensures
        0 <= q - spec_count_lt(spec_break_positions(lines), q) < spec_retained_count(lines),
        spec_retained_lines(lines)[q - spec_count_lt(spec_break_positions(lines), q)] == lines[q],
    decreases lines.len(),
{
    lemma_break_positions_facts(lines);
    let d = lines.drop_last();
    let bp = spec_break_positions(lines);
    let bpd = spec_break_positions(d);
    lemma_break_positions_facts(d);
    if q < lines.len() - 1 {
        assert(d[q] == lines[q]);
        lemma_retained_index(d, q);
        if lines.last() is MeasureBreak {
            assert(bp.drop_last() =~= bpd);
            assert(bp.last() == lines.len() - 1);
            assert(spec_count_lt(bp, q) == spec_count_lt(bpd, q));
        } else {
            assert(bp =~= bpd);
            assert(spec_count_lt(bp, q) == spec_count_lt(bpd, q));
        }
        assert(spec_retained_lines(lines)[q - spec_count_lt(bp, q)] == spec_retained_lines(
            d,
        )[q - spec_count_lt(bpd, q)]);
    } else {
        assert(bp == bpd);
        assert forall|j: int| 0 <= j < bpd.len() implies #[trigger] bpd[j] < q by {}
        lemma_count_lt_all(bpd, q);
        assert(spec_count_lt(bp, q) == bpd.len());
        assert(q - bpd.len() == spec_retained_count(d));
        assert(spec_retained_lines(lines) == spec_retained_lines(d) + seq![lines.last()]);
    }
}

/// The fingering candidates of each pitch of a beat, in pitch order.
pub open spec fn spec_beat_fingering_views(g: Guitar, ps: Seq<Pitch>) -> Seq<Seq<PitchFingering>> {
    Seq::new(ps.len(), |k: int| spec_pitch_fingerings(g.string_ranges@, ps[k]))
}

/// The surviving fingering combinations of a playable beat: the full cartesian
/// product over its pitches, pruned of combinations that repeat a string.
pub open spec fn spec_line_candidates(g: Guitar, ps: Seq<Pitch>) -> Seq<Seq<PitchFingering>> {
    spec_filter_duplicate_strings(spec_product(spec_beat_fingering_views(g, ps)))
}

/// The note node of one fingering combination at the given layer.
pub open spec fn spec_combo_model(layer: int, c: Seq<PitchFingering>) -> NodeModel {
    NodeModel::Note {
        layer,
        fingerings: c,
        avg: spec_avg_non_zero_fret(c),
        span: spec_span_or_zero(c),
    }
}

/// The graph nodes contributed by one beat at the given layer.
pub open spec fn spec_layer_nodes(g: Guitar, line: Line<Vec<Pitch>>, layer: int) -> Seq<NodeModel> {
    match line {
        Line::MeasureBreak => Seq::empty(),
        Line::Rest => seq![NodeModel::Rest { layer }],
        Line::Playable(ps) => Seq::new(
            spec_line_candidates(g, ps@).len(),
            |t: int| spec_combo_model(layer, spec_line_candidates(g, ps@)[t]),
        ),
    }
}

/// The flat node list of the whole graph: each retained beat becomes one layer.
pub open spec fn spec_path_node_models(g: Guitar, lines: Seq<Line<Vec<Pitch>>>) -> Seq<NodeModel>
    decreases lines.len(),
{
    if lines.len() == 0 {
        Seq::empty()
    } else {
        spec_path_node_models(g, lines.drop_last()) + spec_layer_nodes(
            g,
            lines.last(),
            spec_retained_count(lines.drop_last()),
        )
    }
}

/// What membership in the node list says: the node is not the start, its layer is
/// a retained position, and it agrees in kind and content with that retained beat.
pub proof fn lemma_node_models_member(g: Guitar, lines: Seq<Line<Vec<Pitch>>>, n: NodeModel)
    requires
        spec_path_node_models(g, lines).contains(n),
    ensures
        !(n is Start),
        0 <= n.layer() < spec_retained_count(lines),
        (spec_retained_lines(lines)[n.layer()] is Rest ==> n is Rest),
        (forall|ps: Vec<Pitch>|
            spec_retained_lines(lines)[n.layer()] == Line::<Vec<Pitch>>::Playable(ps) ==> (
            n matches NodeModel::Note { fingerings, .. } && spec_line_candidates(g, ps@).contains(
                fingerings,
            ))),
    decreases lines.len(),
{
    lemma_break_positions_facts(lines);
    if lines.len() > 0 {
        let d = lines.drop_last();
        lemma_break_positions_facts(d);
        let whole = spec_path_node_models(g, lines);
        let pre = spec_path_node_models(g, d);
        let grp = spec_layer_nodes(g, lines.last(), spec_retained_count(d));
        let w = choose|w: int| 0 <= w < whole.len() && whole[w] == n;
        if w < pre.len() {
            assert(pre[w] == n);
            assert(pre.contains(n));
            lemma_node_models_member(g, d, n);
            assert(spec_retained_lines(lines)[n.layer()] == spec_retained_lines(d)[n.layer()]);
        } else {
            assert(grp[w - pre.len()] == n);
            let rc = spec_retained_count(d);
            match lines.last() {
                Line::MeasureBreak => {
                    assert(false);
                },
                Line::Rest => {
                    assert(n == NodeModel::Rest { layer: rc });
                    assert(spec_retained_lines(lines)[rc] == lines.last());
                },
                Line::Playable(ps) => {
                    assert(n == spec_combo_model(rc, spec_line_candidates(g, ps@)[w - pre.len()]));
                    assert(spec_line_candidates(g, ps@).contains(
                        spec_line_candidates(g, ps@)[w - pre.len()],
                    ));
                    assert(spec_retained_lines(lines)[rc] == lines.last());
                },
            }
        }
    }
}

/// The beat lines of a valid path are its non-start nodes' lines, in order.
proof fn lemma_path_lines_index(p: Seq<NodeModel>)
    requires
        p.len() >= 1,
        p[0] is Start,
        forall|j: int| 1 <= j < p.len() ==> !((#[trigger] p[j]) is Start),
    ensures
        spec_path_lines(p).len() == p.len() - 1,
        forall|l: int|
            0 <= l < p.len() - 1 ==> #[trigger] spec_path_lines(p)[l] == spec_node_line(p[l + 1]),
    decreases p.len(),
{
    if p.len() == 1 {
        assert(p.last() == p[0]);
        assert(spec_path_lines(p.drop_last()) =~= Seq::<Line<Seq<PitchFingering>>>::empty());
        assert(spec_path_lines(p).len() == 0);
    }
    if p.len() > 1 {
        let d = p.drop_last();
        lemma_path_lines_index(d);
        assert(!(p.last() is Start));
        assert(spec_path_lines(p) == spec_path_lines(d) + seq![spec_node_line(p.last())]);
        assert forall|l: int|
            0 <= l < p.len() - 1 implies #[trigger] spec_path_lines(p)[l] == spec_node_line(
            p[l + 1],
        ) by {
            if l < p.len() - 2 {
                assert(spec_path_lines(p)[l] == spec_path_lines(d)[l]);
                assert(d[l + 1] == p[l + 1]);
            } else {
                assert(spec_path_lines(d).len() == p.len() - 2);
                assert(spec_path_lines(p)[l] == spec_node_line(p.last()));
            }
        }
    }
}



/// What a produced playable beat owes its input beat: one fingering per pitch in
/// pitch order, no string sounded twice, every fingering on one of the guitar's
/// strings within its fret range.
pub open spec fn spec_playable_shape(g: Guitar, ps: Vec<Pitch>, fs: Seq<PitchFingering>) -> bool {
    &&& fs.len() == ps@.len()
    &&& (forall|k: int| 0 <= k < fs.len() ==> (#[trigger] fs[k]).pitch == ps@[k])
    &&& spec_no_duplicate_strings(fs)
    &&& (forall|k: int|
        0 <= k < fs.len() ==> (exists|si: int|
            0 <= si < g.string_ranges@.len() && (#[trigger] fs[k]).string_number == (
            #[trigger] g.string_ranges@[si]).0 && fs[k].fret < g.string_ranges@[si].1@.len()))
}

/// Break positions never outrun the retained lines before them.
proof fn lemma_bp_upper(lines: Seq<Line<Vec<Pitch>>>)
    ensures
        forall|j: int|
            0 <= j < spec_break_positions(lines).len() ==> #[trigger] spec_break_positions(
                lines,
            )[j] <= spec_retained_count(lines) + j,
    decreases lines.len(),
{
    if lines.len() > 0 {
        let d = lines.drop_last();
        lemma_bp_upper(d);
        lemma_break_positions_facts(d);
        let bp = spec_break_positions(lines);
        let bpd = spec_break_positions(d);
        assert forall|j: int|
            0 <= j < bp.len() implies #[trigger] bp[j] <= spec_retained_count(lines) + j by {
            if j < bpd.len() {
                assert(bp[j] == bpd[j]);
                assert(spec_retained_count(d) <= spec_retained_count(lines));
            } else {
                assert(lines.last() is MeasureBreak);
                assert(bp[j] == lines.len() - 1);
                assert(bpd.len() + spec_retained_count(d) == d.len());
            }
        }
    }
}

/// The shape of one woven arrangement against the trimmed input: same length,
/// measure breaks and rests at identical positions, and each playable beat
/// answered by one fingering per pitch with no string used twice.
pub proof fn lemma_arranged_lines_shape(
    g: Guitar,
    lines: Seq<Line<Vec<Pitch>>>,
    p: Seq<NodeModel>,
    q: int,
)
    requires
        g.wf(),
        lines.len() <= 65535,
        spec_retained_count(lines) >= 1,
        spec_valid_full_path(
            spec_path_node_models(g, lines),
            p,
            (spec_retained_count(lines) - 1) as u16,
        ),
        0 <= q < lines.len(),
    ensures
        spec_weave(spec_path_lines(p), spec_break_positions(lines)).len() == lines.len(),
        (lines[q] is MeasureBreak <==> spec_weave(spec_path_lines(p), spec_break_positions(lines))[q]
            is MeasureBreak),
        lines[q] is Rest ==> spec_weave(spec_path_lines(p), spec_break_positions(lines))[q]
            is Rest,
        (forall|ps: Vec<Pitch>|
            lines[q] == Line::<Vec<Pitch>>::Playable(ps) ==> (spec_weave(
                spec_path_lines(p),
                spec_break_positions(lines),
            )[q] matches Line::Playable(fs) && spec_playable_shape(g, ps, fs))),
{
    lemma_break_positions_facts(lines);
    let rc = spec_retained_count(lines);
    let bp = spec_break_positions(lines);
    let models = spec_path_node_models(g, lines);
    assert(rc <= lines.len());
    assert forall|j: int| 1 <= j < p.len() implies !((#[trigger] p[j]) is Start) by {
        assert(models.contains(p[j]));
        lemma_node_models_member(g, lines, p[j]);
    }
    lemma_path_lines_index(p);
    let pls = spec_path_lines(p);
    assert(p.len() == rc + 1);
    assert(pls.len() == rc);
    let woven = spec_weave(pls, bp);
    assert(woven.len() == lines.len());
    if lines[q] is MeasureBreak {
        assert(bp.contains(q));
        assert(woven[q] is MeasureBreak);
    } else {
        assert(!bp.contains(q));
        lemma_retained_index(lines, q);
        let l = q - spec_count_lt(bp, q);
        assert(woven[q] == pls[l]);
        assert(pls[l] == spec_node_line(p[l + 1]));
        let n = p[l + 1];
        assert(models.contains(n));
        lemma_node_models_member(g, lines, n);
        assert(n.layer() == l);
        assert(spec_retained_lines(lines)[l] == lines[q]);
        if lines[q] is Rest {
            assert(n is Rest);
            assert(woven[q] is Rest);
        }
        assert forall|ps: Vec<Pitch>|
            lines[q] == Line::<Vec<Pitch>>::Playable(ps) implies (woven[q] matches Line::Playable(
            fs,
        ) && spec_playable_shape(g, ps, fs)) by {
            let cands = spec_line_candidates(g, ps@);
            let fing = n->Note_fingerings;
            assert(cands.contains(fing));
            let t = choose|t: int| 0 <= t < cands.len() && cands[t] == fing;
            lemma_filter_duplicate_strings_member(
                spec_product(spec_beat_fingering_views(g, ps@)),
                t,
            );
            assert(spec_no_duplicate_strings(fing));
            let prod = spec_product(spec_beat_fingering_views(g, ps@));
            assert(prod.contains(fing));
            let u = choose|u: int| 0 <= u < prod.len() && prod[u] == fing;
            lemma_product_member(spec_beat_fingering_views(g, ps@), u);
            assert(fing.len() == ps@.len());
            assert forall|k: int|
                0 <= k < fing.len() implies (#[trigger] fing[k]).pitch == ps@[k] && (exists|
                si: int,
            |
                0 <= si < g.string_ranges@.len() && fing[k].string_number == (
                #[trigger] g.string_ranges@[si]).0 && fing[k].fret
                    < g.string_ranges@[si].1@.len()) by {
                assert(spec_beat_fingering_views(g, ps@)[k].contains(fing[k]));
                let a = choose|a: int|
                    0 <= a < spec_pitch_fingerings(g.string_ranges@, ps@[k]).len()
                        && spec_pitch_fingerings(g.string_ranges@, ps@[k])[a] == fing[k];
                assert forall|x: int, y: int|
                    0 <= x < y < g.string_ranges@.len() implies (
                #[trigger] g.string_ranges@[x]).0.value() < (
                #[trigger] g.string_ranges@[y]).0.value() by {
                    assert(g.string_ranges@[x].0 == g.tuning@[x].0);
                    assert(g.string_ranges@[y].0 == g.tuning@[y].0);
                }
                crate::guitar::lemma_pitch_fingerings_facts(g.string_ranges@, ps@[k]);
            }
            assert(woven[q] == Line::<Seq<PitchFingering>>::Playable(fing));
        }
    }
}


/// Whether one produced arrangement matches the `t`-th returned path for the
/// trimmed input: its lines are the path's beats with the measure breaks woven
/// back in, its difficulty is the path's total cost, and its span is the widest
/// note span on the path.
pub open spec fn spec_arrangement_of_path(
    g: Guitar,
    trimmed: Seq<Line<Vec<Pitch>>>,
    path: (Seq<NodeModel>, int),
    a: Arrangement,
) -> bool {
    &&& view_lines(a.lines@) == spec_weave(spec_path_lines(path.0), spec_break_positions(trimmed))
    &&& a.difficulty == path.1
    &&& a.max_fret_span == spec_path_max_span(path.0)
}

/// Turns a beat sequence into up to `num_arrangements` playable arrangements,
/// ranked from easiest to hardest.
///
/// The count must lie in 1..=20. An input without any playable beat yields that
/// many trivial empty arrangements. Otherwise leading rests and measure breaks
/// are dropped, every pitch of every remaining beat is checked against the
/// guitar (all unplayable pitches are reported together), and a k-shortest-path
/// search over the per-beat fingering combinations returns the cheapest distinct
/// paths, each assembled back into an arrangement with its measure breaks
/// restored.
pub fn create_arrangements(
    guitar: &Guitar,
    input_lines: Vec<Line<Vec<Pitch>>>,
    num_arrangements: u8,
) -> (r: Result<Vec<Arrangement>, ArrangementError>)
    requires
        guitar.wf(),
        input_lines@.len() <= 65535,
        forall|i: int|
            0 <= i < input_lines@.len() ==> ((#[trigger] input_lines@[i]) matches Line::Playable(
                ps,
            ) ==> 1 <= ps@.len() <= 0xFFFF_FFFF),
    ensures
        num_arrangements == 0 <==> r == Result::<Vec<Arrangement>, ArrangementError>::Err(
            ArrangementError::NoArrangementsRequested,
        ),
        num_arrangements > MAX_NUM_ARRANGEMENTS ==> r == Result::<
            Vec<Arrangement>,
            ArrangementError,
        >::Err(ArrangementError::TooManyArrangementsRequested),
        (1 <= num_arrangements <= MAX_NUM_ARRANGEMENTS && !spec_has_playable(input_lines@)) ==> (
        r matches Ok(v) && v@.len() == num_arrangements && (forall|t: int|
            0 <= t < v@.len() ==> (#[trigger] v@[t]).lines@.len() == 0 && v@[t].difficulty == 0
                && v@[t].max_fret_span == 0)),
        (1 <= num_arrangements <= MAX_NUM_ARRANGEMENTS && spec_has_playable(input_lines@)
            && spec_invalid_entries(
            *guitar,
            input_lines@.subrange(spec_first_playable(input_lines@), input_lines@.len() as int),
        ).len() != 0) ==> (r matches Err(e) && e matches ArrangementError::InvalidPitches(list)
            && {
            let entries = spec_invalid_entries(
                *guitar,
                input_lines@.subrange(
                    spec_first_playable(input_lines@),
                    input_lines@.len() as int,
                ),
            );
            &&& list@.len() == entries.len()
            &&& (forall|t: int|
                0 <= t < entries.len() ==> (#[trigger] list@[t]).line_number == entries[t].1)
            &&& (forall|t: int|
                0 <= t < entries.len() ==> (#[trigger] list@[t]).value@
                    == entries[t].0.spec_name())
        }),
        (1 <= num_arrangements <= MAX_NUM_ARRANGEMENTS && spec_has_playable(input_lines@)
            && spec_invalid_entries(
            *guitar,
            input_lines@.subrange(spec_first_playable(input_lines@), input_lines@.len() as int),
        ).len() == 0) ==> {
            let trimmed = input_lines@.subrange(
                spec_first_playable(input_lines@),
                input_lines@.len() as int,
            );
            let paths = yen_paths(
                spec_path_node_models(*guitar, trimmed),
                (spec_retained_count(trimmed) - 1) as u16,
                num_arrangements as nat,
            );
            &&& (paths.len() == 0 ==> r == Result::<Vec<Arrangement>, ArrangementError>::Err(
                ArrangementError::NoArrangementsFound,
            ))
            &&& (paths.len() > 0 ==> (r matches Ok(v) && v@.len() == paths.len() && {
                &&& (forall|t: int|
                    0 <= t < v@.len() ==> spec_arrangement_of_path(
                        *guitar,
                        trimmed,
                        paths[t],
                        #[trigger] v@[t],
                    ))
                &&& (forall|t: int, u: int|
                    0 <= t < u < v@.len() ==> (#[trigger] v@[t]).difficulty <= (
                    #[trigger] v@[u]).difficulty)
                &&& v@.len() <= num_arrangements
                &&& (v@.len() < num_arrangements ==> (forall|p: Seq<NodeModel>|
                    #[trigger] spec_valid_full_path(
                        spec_path_node_models(*guitar, trimmed),
                        p,
                        (spec_retained_count(trimmed) - 1) as u16,
                    ) ==> (exists|t: int| 0 <= t < paths.len() && (#[trigger] paths[t]).0 == p)))
                &&& (forall|t: int, q: int|
                    0 <= t < v@.len() && 0 <= q < trimmed.len() ==> {
                        let woven = view_lines((#[trigger] v@[t]).lines@);
                        &&& woven.len() == trimmed.len()
                        &&& ((#[trigger] trimmed[q]) is MeasureBreak <==> woven[q]
                            is MeasureBreak)
                        &&& (trimmed[q] is Rest ==> woven[q] is Rest)
                        &&& (forall|ps: Vec<Pitch>|
                            trimmed[q] == Line::<Vec<Pitch>>::Playable(ps) ==> (woven[q] matches Line::Playable(
                                fs,
                            ) && spec_playable_shape(*guitar, ps, fs)))
                    })
            }))
        },
{
    let ghost input0 = input_lines@;
    if num_arrangements == 0 {
        return Err(ArrangementError::NoArrangementsRequested);
    }
    if num_arrangements > MAX_NUM_ARRANGEMENTS {
        return Err(ArrangementError::TooManyArrangementsRequested);
    }

    let mut first_playable: usize = 0;
    let mut found = false;
    let mut i: usize = 0;
    while i < input_lines.len()
        invariant
            i <= input_lines@.len(),
            !found ==> first_playable == 0 && (forall|t: int|
                0 <= t < i ==> !((#[trigger] input_lines@[t]) is Playable)),
            found ==> first_playable < i && input_lines@[first_playable as int] is Playable && (
            forall|t: int| 0 <= t < first_playable ==> !((#[trigger] input_lines@[t]) is Playable)),
        decreases input_lines@.len() - i,
    {
        if !found {
            match &input_lines[i] {
                Line::Playable(_) => {
                    found = true;
                    first_playable = i;
                },
                _ => {},
            }
        }
        i += 1;
    }

    if !found {
        proof {
            assert(!spec_has_playable(input0));
        }
        let mut trivial: Vec<Arrangement> = Vec::new();
        let mut c: usize = 0;
        while c < num_arrangements as usize
            invariant
                c <= num_arrangements as usize,
                trivial@.len() == c,
                forall|t: int|
                    0 <= t < c ==> (#[trigger] trivial@[t]).lines@.len() == 0
                        && trivial@[t].difficulty == 0 && trivial@[t].max_fret_span == 0,
            decreases num_arrangements as usize - c,
        {
            trivial.push(Arrangement { lines: Vec::new(), difficulty: 0, max_fret_span: 0 });
            c += 1;
        }
        return Ok(trivial);
    }

    proof {
        lemma_first_playable_char(input0, first_playable as int);
        assert(spec_has_playable(input0));
    }
    let mut head = input_lines;
    let lines = head.split_off(first_playable);
    let ghost trimmed = lines@;
    proof {
        assert(trimmed == input0.subrange(spec_first_playable(input0), input0.len() as int));
        assert(trimmed[0] is Playable);
        lemma_break_positions_facts(trimmed);
        lemma_retained_index(trimmed, 0);
        assert(spec_retained_count(trimmed) >= 1);
    }

    let pitch_fingering_candidates = match validate_fingerings(guitar, &lines) {
        Ok(v) => v,
        Err(e) => {
            return Err(e);
        },
    };

    let mut measure_break_indices: Vec<usize> = Vec::new();
    let mut i: usize = 0;
    while i < lines.len()
        invariant
            i <= lines@.len(),
            lines@ == trimmed,
            measure_break_indices@.map_values(|u: usize| u as int) == spec_break_positions(
                trimmed.subrange(0, i as int),
            ),
        decreases lines@.len() - i,
    {
        match &lines[i] {
            Line::MeasureBreak => {
                measure_break_indices.push(i);
            },
            _ => {},
        }
        proof {
            let pre = trimmed.subrange(0, i as int);
            let cur = trimmed.subrange(0, (i + 1) as int);
            assert(cur.drop_last() =~= pre);
            assert(cur.last() == trimmed[i as int]);
            assert(measure_break_indices@.map_values(|u: usize| u as int) =~= spec_break_positions(
                cur,
            ));
        }
        i += 1;
    }
    proof {
        assert(trimmed.subrange(0, trimmed.len() as int) =~= trimmed);
    }

    let mut path_nodes: Vec<Node> = Vec::new();
    let mut layer: u16 = 0;
    let mut i: usize = 0;
    while i < pitch_fingering_candidates.len()
        invariant
            i <= pitch_fingering_candidates@.len(),
            guitar.wf(),
            lines@ == trimmed,
            trimmed.len() <= 65535,
            pitch_fingering_candidates@.len() == trimmed.len(),
            forall|t: int|
                0 <= t < trimmed.len() ==> spec_fingered_line_ok(
                    *guitar,
                    trimmed[t],
                    #[trigger] pitch_fingering_candidates@[t],
                ),
            forall|t: int|
                0 <= t < trimmed.len() ==> ((#[trigger] trimmed[t]) matches Line::Playable(ps)
                    ==> 1 <= ps@.len() <= 0xFFFF_FFFF),
            layer == spec_retained_count(trimmed.subrange(0, i as int)),
            view_nodes(path_nodes@) == spec_path_node_models(
                *guitar,
                trimmed.subrange(0, i as int),
            ),
            forall|t: int|
                0 <= t < path_nodes@.len() ==> !((#[trigger] path_nodes@[t]) is Start),
            forall|t: int|
                0 <= t < path_nodes@.len() ==> view_node(#[trigger] path_nodes@[t]).wf(),
            forall|t: int|
                0 <= t < path_nodes@.len() ==> 0 <= view_node(#[trigger] path_nodes@[t]).layer()
                    < layer,
            forall|t: int, u: int|
                0 <= t < u < path_nodes@.len() ==> view_node(#[trigger] path_nodes@[t])
                    != view_node(#[trigger] path_nodes@[u]),
        decreases pitch_fingering_candidates@.len() - i,
    {
        let ghost pre_nodes = path_nodes@;
        let ghost pre_layer = layer;
        let ghost prefix = trimmed.subrange(0, i as int);
        let ghost cur = trimmed.subrange(0, (i + 1) as int);
        proof {
            assert(cur.drop_last() =~= prefix);
            assert(cur.last() == trimmed[i as int]);
            lemma_break_positions_facts(prefix);
            assert(layer <= i);
        }
        match &pitch_fingering_candidates[i] {
            Line::MeasureBreak => {
                proof {
                    assert(trimmed[i as int] is MeasureBreak);
                    assert(view_nodes(path_nodes@) =~= spec_path_node_models(*guitar, cur));
                }
            },
            Line::Rest => {
                path_nodes.push(Node::Rest { line_index: layer });
                proof {
                    assert(trimmed[i as int] is Rest);
                    assert(view_nodes(path_nodes@) =~= spec_path_node_models(*guitar, cur));
                    assert forall|t: int, u: int|
                        0 <= t < u < path_nodes@.len() implies view_node(
                        #[trigger] path_nodes@[t],
                    ) != view_node(#[trigger] path_nodes@[u]) by {
                        if u < pre_nodes.len() {
                            assert(path_nodes@[t] == pre_nodes[t]);
                            assert(path_nodes@[u] == pre_nodes[u]);
                        } else {
                            assert(path_nodes@[t] == pre_nodes[t]);
                            assert(view_node(path_nodes@[u]).layer() == pre_layer);
                        }
                    }
                }
                layer = layer + 1;
            },
            Line::Playable(fs) => {
                let ghost ps = trimmed[i as int]->Playable_0;
                proof {
                    assert(trimmed[i as int] matches Line::Playable(p2) && p2 == ps);
                    assert(view_combos(fs@) =~= spec_beat_fingering_views(*guitar, ps@));
                    assert(fs@.len() == ps@.len());
                }
                let combos = generate_fingering_combos(fs);
                let ghost cands = spec_line_candidates(*guitar, ps@);
                proof {
                    assert(view_combos(combos@) == cands);
                    assert forall|x: int, y: int|
                        0 <= x < y < guitar.string_ranges@.len() implies (
                    #[trigger] guitar.string_ranges@[x]).0.value() < (
                    #[trigger] guitar.string_ranges@[y]).0.value() by {
                        assert(guitar.string_ranges@[x].0 == guitar.tuning@[x].0);
                        assert(guitar.string_ranges@[y].0 == guitar.tuning@[y].0);
                    }
                    let views = spec_beat_fingering_views(*guitar, ps@);
                    assert forall|k: int, a: int, b: int|
                        0 <= k < views.len() && 0 <= a < b < views[k].len() implies #[trigger] views[k][a]
                        != #[trigger] views[k][b] by {
                        crate::guitar::lemma_pitch_fingerings_facts(guitar.string_ranges@, ps@[k]);
                        assert(views[k][a].string_number.value()
                            != views[k][b].string_number.value());
                    }
                    lemma_product_distinct(views);
                    lemma_filter_distinct(spec_product(views));
                    assert forall|t: int|
                        0 <= t < cands.len() implies (#[trigger] cands[t]).len() == ps@.len() by {
                        lemma_filter_duplicate_strings_member(spec_product(views), t);
                        let u = choose|u: int|
                            0 <= u < spec_product(views).len() && spec_product(views)[u]
                                == cands[t];
                        lemma_product_member(views, u);
                    }
                }
                let mut c: usize = 0;
                while c < combos.len()
                    invariant
                        c <= combos@.len(),
                        layer == pre_layer,
                        view_combos(combos@) == cands,
                        ps@.len() <= 0xFFFF_FFFF,
                        cands == spec_line_candidates(*guitar, ps@),
                        forall|t: int|
                            0 <= t < cands.len() ==> (#[trigger] cands[t]).len() == ps@.len(),
                        forall|t: int, u: int| 0 <= t < u < cands.len() ==> cands[t] != cands[u],
                        path_nodes@.len() == pre_nodes.len() + c,
                        forall|t: int|
                            0 <= t < pre_nodes.len() ==> #[trigger] path_nodes@[t] == pre_nodes[t],
                        forall|t: int|
                            pre_nodes.len() <= t < path_nodes@.len() ==> view_node(
                                #[trigger] path_nodes@[t],
                            ) == spec_combo_model(pre_layer as int, cands[t - pre_nodes.len()]),
                        forall|t: int|
                            0 <= t < path_nodes@.len() ==> !((#[trigger] path_nodes@[t]) is Start),
                        forall|t: int|
                            0 <= t < path_nodes@.len() ==> view_node(
                                #[trigger] path_nodes@[t],
                            ).wf(),
                        forall|t: int|
                            0 <= t < path_nodes@.len() ==> 0 <= view_node(
                                #[trigger] path_nodes@[t],
                            ).layer() <= pre_layer,
                        forall|t: int|
                            0 <= t < pre_nodes.len() ==> 0 <= view_node(
                                #[trigger] path_nodes@[t],
                            ).layer() < pre_layer,
                        forall|t: int, u: int|
                            0 <= t < u < path_nodes@.len() ==> view_node(
                                #[trigger] path_nodes@[t],
                            ) != view_node(#[trigger] path_nodes@[u]),
                    decreases combos@.len() - c,
                {
                    proof {
                        assert(view_combos(combos@)[c as int] == combos@[c as int]@);
                        assert(combos@[c as int]@ == cands[c as int]);
                        assert(cands[c as int].len() == ps@.len());
                    }
                    let combo = BeatFingeringCombo::new(&combos[c]);
                    proof {
                        assert(combo.fingering_combo@ == cands[c as int]);
                    }
                    let ghost pre2 = path_nodes@;
                    path_nodes.push(
                        Node::Note { line_index: layer, beat_fingering_combo: combo },
                    );
                    proof {
                        assert(path_nodes@[path_nodes@.len() - 1] == Node::Note {
                            line_index: layer,
                            beat_fingering_combo: combo,
                        });
                        assert(layer == pre_layer);
                        assert(combo.avg_non_zero_fret == spec_avg_non_zero_fret(
                            cands[c as int],
                        ));
                        assert(combo.non_zero_fret_span == spec_span_or_zero(cands[c as int]));
                        let newn = view_node(path_nodes@[path_nodes@.len() - 1]);
                        assert(newn == spec_combo_model(pre_layer as int, cands[c as int]));
                        assert(newn.wf());
                        assert forall|t: int, u: int|
                            0 <= t < u < path_nodes@.len() implies view_node(
                            #[trigger] path_nodes@[t],
                        ) != view_node(#[trigger] path_nodes@[u]) by {
                            if u < pre2.len() {
                                assert(path_nodes@[t] == pre2[t]);
                                assert(path_nodes@[u] == pre2[u]);
                            } else {
                                assert(path_nodes@[t] == pre2[t]);
                                if t < pre_nodes.len() {
                                    assert(view_node(path_nodes@[t]).layer() < pre_layer);
                                } else {
                                    assert(view_node(path_nodes@[t]) == spec_combo_model(
                                        pre_layer as int,
                                        cands[t - pre_nodes.len()],
                                    ));
                                    assert(cands[t - pre_nodes.len()] != cands[c as int]);
                                }
                            }
                        }
                    }
                    c += 1;
                }
                proof {
                    assert(spec_layer_nodes(*guitar, trimmed[i as int], pre_layer as int).len()
                        == cands.len());
                    assert forall|t: int|
                        0 <= t < cands.len() implies #[trigger] spec_layer_nodes(
                        *guitar,
                        trimmed[i as int],
                        pre_layer as int,
                    )[t] == spec_combo_model(pre_layer as int, cands[t]) by {}
                    assert(view_nodes(path_nodes@) =~= spec_path_node_models(*guitar, cur));
                }
                layer = layer + 1;
            },
        }
        i += 1;
    }
    proof {
        assert(trimmed.subrange(0, trimmed.len() as int) =~= trimmed);
        assert(layer == spec_retained_count(trimmed));
        assert(layer >= 1);
    }

    let num_path_node_groups = layer;

    let path_results = yen_k_shortest_paths(
        &path_nodes,
        num_path_node_groups - 1,
        num_arrangements as usize,
    );

    if path_results.len() == 0 {
        proof {
            assert(yen_paths(
                spec_path_node_models(*guitar, trimmed),
                (spec_retained_count(trimmed) - 1) as u16,
                num_arrangements as nat,
            ).len() == 0);
        }
        return Err(ArrangementError::NoArrangementsFound);
    }

    let ghost gpaths = yen_paths(
        spec_path_node_models(*guitar, trimmed),
        (spec_retained_count(trimmed) - 1) as u16,
        num_arrangements as nat,
    );

    proof {
        lemma_bp_upper(trimmed);
        lemma_break_positions_facts(trimmed);
        assert(num_path_node_groups - 1 == (spec_retained_count(trimmed) - 1) as u16);
        assert(view_nodes(path_nodes@) == spec_path_node_models(*guitar, trimmed));
        assert(view_scored_paths(path_results@) == gpaths);
    }

    let mut arrangements: Vec<Arrangement> = Vec::new();
    let mut t: usize = 0;
    while t < path_results.len()
        invariant
            t <= path_results@.len(),
            guitar.wf(),
            trimmed.len() <= 65535,
            spec_retained_count(trimmed) >= 1,
            view_scored_paths(path_results@) == gpaths,
            measure_break_indices@.map_values(|u: usize| u as int) == spec_break_positions(
                trimmed,
            ),
            forall|x: int|
                0 <= x < path_results@.len() ==> spec_valid_full_path(
                    spec_path_node_models(*guitar, trimmed),
                    view_nodes((#[trigger] path_results@[x]).0@),
                    (spec_retained_count(trimmed) - 1) as u16,
                ),
            forall|x: int, y: int|
                0 <= x < y < path_results@.len() ==> (#[trigger] path_results@[x]).1 <= (
                #[trigger] path_results@[y]).1,
            arrangements@.len() == t,
            forall|x: int|
                0 <= x < t ==> spec_arrangement_of_path(
                    *guitar,
                    trimmed,
                    gpaths[x],
                    #[trigger] arrangements@[x],
                ),
            forall|x: int| 0 <= x < t ==> (#[trigger] arrangements@[x]).difficulty
                == path_results@[x].1,
        decreases path_results@.len() - t,
    {
        let entry = &path_results[t];
        proof {
            lemma_bp_upper(trimmed);
            lemma_break_positions_facts(trimmed);
            let pm = view_nodes(entry.0@);
            let models = spec_path_node_models(*guitar, trimmed);
            assert(spec_valid_full_path(models, pm, (spec_retained_count(trimmed) - 1) as u16));
            assert forall|j: int| 1 <= j < pm.len() implies !((#[trigger] pm[j]) is Start) by {
                assert(models.contains(pm[j]));
                lemma_node_models_member(*guitar, trimmed, pm[j]);
            }
            lemma_path_lines_index(pm);
            assert(spec_path_lines(pm).len() == spec_retained_count(trimmed));
            assert forall|j: int|
                0 <= j < measure_break_indices@.len() implies #[trigger] measure_break_indices@[j] as int
                <= spec_path_lines(view_nodes(entry.0@)).len() + j by {
                let bks = measure_break_indices@.map_values(|u: usize| u as int);
                assert(bks[j] == measure_break_indices@[j] as int);
                assert(bks[j] <= spec_retained_count(trimmed) + j);
            }
            assert forall|a: int, b: int|
                0 <= a < b < measure_break_indices@.len() implies #[trigger] measure_break_indices@[a]
                < (#[trigger] measure_break_indices@[b]) by {
                let bks = measure_break_indices@.map_values(|u: usize| u as int);
                assert(bks[a] == measure_break_indices@[a] as int);
                assert(bks[b] == measure_break_indices@[b] as int);
                assert(bks[a] < bks[b]);
            }
        }
        let arr = process_path(&entry.0, entry.1, &measure_break_indices);
        proof {
            assert(view_scored_paths(path_results@)[t as int] == (
                view_nodes(path_results@[t as int].0@),
                path_results@[t as int].1 as int,
            ));
            assert(gpaths[t as int].0 == view_nodes(entry.0@));
            assert(gpaths[t as int].1 == entry.1 as int);
        }
        arrangements.push(arr);
        t += 1;
    }

    proof {
        assert forall|x: int, q: int|
            0 <= x < arrangements@.len() && 0 <= q < trimmed.len() implies {
            let woven = view_lines((#[trigger] arrangements@[x]).lines@);
            &&& woven.len() == trimmed.len()
            &&& ((#[trigger] trimmed[q]) is MeasureBreak <==> woven[q] is MeasureBreak)
            &&& (trimmed[q] is Rest ==> woven[q] is Rest)
            &&& (forall|ps: Vec<Pitch>|
                trimmed[q] == Line::<Vec<Pitch>>::Playable(ps) ==> (woven[q] matches Line::Playable(
                    fs,
                ) && spec_playable_shape(*guitar, ps, fs)))
        } by {
            assert(view_scored_paths(path_results@)[x] == (
                view_nodes(path_results@[x].0@),
                path_results@[x].1 as int,
            ));
            assert(gpaths[x].0 == view_nodes(path_results@[x].0@));
            lemma_arranged_lines_shape(
                *guitar,
                trimmed,
                view_nodes(path_results@[x].0@),
                q,
            );
            assert(view_lines(arrangements@[x].lines@) == spec_weave(
                spec_path_lines(view_nodes(path_results@[x].0@)),
                spec_break_positions(trimmed),
            ));
        }
        assert forall|x: int, y: int|
            0 <= x < y < arrangements@.len() implies (#[trigger] arrangements@[x]).difficulty <= (
        #[trigger] arrangements@[y]).difficulty by {}
        assert(gpaths.len() == path_results@.len());
        if arrangements@.len() < num_arrangements {
            assert forall|p: Seq<NodeModel>|
                #[trigger] spec_valid_full_path(
                    spec_path_node_models(*guitar, trimmed),
                    p,
                    (spec_retained_count(trimmed) - 1) as u16,
                ) implies (exists|x: int| 0 <= x < gpaths.len() && (#[trigger] gpaths[x]).0
                == p) by {
                assert(path_results@.len() < num_arrangements as usize);
                let w = choose|w: int|
                    0 <= w < path_results@.len() && view_nodes(
                        (#[trigger] path_results@[w]).0@,
                    ) == p;
                assert(gpaths[w].0 == p);
            }
        }
    }
    Ok(arrangements)
}

} // verus!
