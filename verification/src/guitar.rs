use vstd::prelude::*;
use vstd::string::StringExecFns;
use crate::pitch::Pitch;
use crate::string_number::{StringNumber, MAX_NUM_STRINGS};
use crate::text::{spec_udec, u16_to_string};

verus! {

/// One playable position: a pitch sounded on a given string at a given fret.
#[derive(Debug, Clone, Copy, PartialEq, Eq, Hash, Structural)]
pub struct PitchFingering {
    pub pitch: Pitch,
    pub string_number: StringNumber,
    pub fret: u8,
}

impl PitchFingering {
    /// A short description of this position: pitch, string label, fret number.
    pub fn describe(&self) -> (r: String) {
        let mut s = self.pitch.plain_text();
        s.append(" | ");
        s.append(self.string_number.describe().as_str());
        s.append(" => ");
        s.append(u16_to_string(self.fret as u16).as_str());
        s
    }
}

/// The highest fret count a guitar may be configured with.
pub const MAX_NUM_FRETS: u8 = 30;

/// The highest fret a capo may be placed on.
pub const MAX_CAPO: u8 = 8;

/// Why a guitar configuration was rejected.
#[derive(Debug, Clone, PartialEq, Eq)]
pub enum GuitarError {
    TooManyFrets(u8),
    CapoTooHigh(u8),
    StringRangeTooLong { num_frets: u8, open_pitch: Pitch },
}

impl GuitarError {
    pub fn message(&self) -> (r: String)
        ensures
            (forall|n: u8|
                *self == GuitarError::TooManyFrets(n) ==> r@ == "Too many frets ("@ + spec_udec(
                    n as int,
                ) + "). The maximum is 30."@),
            (forall|n: u8|
                *self == GuitarError::CapoTooHigh(n) ==> r@ == "The capo fret ("@ + spec_udec(
                    n as int,
                ) + ") is too high. The maximum is 8."@),
            (forall|n: u8, p: Pitch|
                *self == (GuitarError::StringRangeTooLong { num_frets: n, open_pitch: p }) ==> r@
                    == "Too many frets ("@ + spec_udec(n as int)
                    + ") for string starting at pitch "@ + p.spec_plain_text()
                    + ". The highest pitch is B9, which would only exist at fret number "@
                    + spec_udec(119 - p.as_index()) + "."@),
    {
        match self {
            GuitarError::TooManyFrets(n) => {
                let mut s = String::from_str("Too many frets (");
                s.append(u16_to_string(*n as u16).as_str());
                s.append("). The maximum is 30.");
                s
            },
            GuitarError::CapoTooHigh(n) => {
                let mut s = String::from_str("The capo fret (");
                s.append(u16_to_string(*n as u16).as_str());
                s.append(") is too high. The maximum is 8.");
                s
            },
            GuitarError::StringRangeTooLong { num_frets, open_pitch } => {
                let mut s = String::from_str("Too many frets (");
                s.append(u16_to_string(*num_frets as u16).as_str());
                s.append(") for string starting at pitch ");
                s.append(open_pitch.plain_text().as_str());
                s.append(". The highest pitch is B9, which would only exist at fret number ");
                s.append(u16_to_string((119 - open_pitch.index()) as u16).as_str());
                s.append(".");
                s
            },
        }
    }
}

/// The open pitches of a standard six string guitar, from string 1 (highest) to 6 (lowest).
pub fn std_tuning_open_pitches() -> (r: Vec<Pitch>)
    ensures
        r@ == seq![Pitch::E4, Pitch::B3, Pitch::G3, Pitch::D3, Pitch::A2, Pitch::E2],
{
    let mut v: Vec<Pitch> = Vec::new();
    v.push(Pitch::E4);
    v.push(Pitch::B3);
    v.push(Pitch::G3);
    v.push(Pitch::D3);
    v.push(Pitch::A2);
    v.push(Pitch::E2);
    proof {
        assert(v@ =~= seq![Pitch::E4, Pitch::B3, Pitch::G3, Pitch::D3, Pitch::A2, Pitch::E2]);
    }
    v
}

/// Pairs each open pitch with its 1-based string number, string 1 first.
///
/// `open_string_pitches` runs from the highest string (string 1) down to the lowest.
pub fn create_string_tuning(open_string_pitches: &Vec<Pitch>) -> (r: Vec<(StringNumber, Pitch)>)
    requires
        open_string_pitches@.len() <= MAX_NUM_STRINGS,
    ensures
        r@.len() == open_string_pitches@.len(),
        forall|i: int| 0 <= i < r@.len() ==> #[trigger] r@[i].0.value() == i + 1,
        forall|i: int| 0 <= i < r@.len() ==> #[trigger] r@[i].1 == open_string_pitches@[i],
{
    let mut v: Vec<(StringNumber, Pitch)> = Vec::new();
    let mut i: usize = 0;
    while i < open_string_pitches.len()
        invariant
            open_string_pitches@.len() <= MAX_NUM_STRINGS,
            i <= open_string_pitches@.len(),
            v@.len() == i,
            forall|t: int| 0 <= t < i ==> #[trigger] v@[t].0.value() == t + 1,
            forall|t: int| 0 <= t < i ==> #[trigger] v@[t].1 == open_string_pitches@[t],
        decreases open_string_pitches@.len() - i,
    {
        proof {
            assert(1 <= (i + 1) as u8 <= MAX_NUM_STRINGS);
        }
        let ghost pre = v@;
        match StringNumber::new((i + 1) as u8) {
            Ok(sn) => {
                v.push((sn, open_string_pitches[i]));
                proof {
                    assert(v@[i as int].0.value() == i + 1);
                }
            },
            Err(_) => {
                proof {
                    assert(false);
                }
            },
        }
        i += 1;
    }
    v
}

/// The first position of `p` in `s`, or -1 if `p` does not occur.
pub open spec fn spec_first_index(s: Seq<Pitch>, p: Pitch) -> int
    decreases s.len(),
{
    if s.len() == 0 {
        -1
    } else if s[0] == p {
        0
    } else if spec_first_index(s.drop_first(), p) < 0 {
        -1
    } else {
        spec_first_index(s.drop_first(), p) + 1
    }
}

proof fn lemma_first_index_in_range(s: Seq<Pitch>, p: Pitch)
    ensures
        spec_first_index(s, p) < s.len(),
    decreases s.len(),
{
    if s.len() > 0 && s[0] != p {
        lemma_first_index_in_range(s.drop_first(), p);
    }
}

proof fn lemma_first_index_found(s: Seq<Pitch>, p: Pitch, j: int)
    requires
        0 <= j < s.len(),
        s[j] == p,
        forall|t: int| 0 <= t < j ==> s[t] != p,
    ensures
        spec_first_index(s, p) == j,
    decreases s.len(),
{
    if j > 0 {
        lemma_first_index_found(s.drop_first(), p, j - 1);
    }
}

proof fn lemma_first_index_absent(s: Seq<Pitch>, p: Pitch)
    requires
        forall|t: int| 0 <= t < s.len() ==> s[t] != p,
    ensures
        spec_first_index(s, p) == -1,
    decreases s.len(),
{
    if s.len() > 0 {
        lemma_first_index_absent(s.drop_first(), p);
    }
}

/// The position of the first occurrence of `p` in `range`, if any.
fn position_of(range: &Vec<Pitch>, p: &Pitch) -> (r: Option<usize>)
    ensures
        r matches Some(j) ==> j == spec_first_index(range@, *p) && j < range@.len(),
        r is None ==> spec_first_index(range@, *p) == -1,
{
    let mut j: usize = 0;
    while j < range.len()
        invariant
            j <= range@.len(),
            forall|t: int| 0 <= t < j ==> range@[t] != *p,
        decreases range@.len() - j,
    {
        if range[j] == *p {
            proof {
                lemma_first_index_found(range@, *p, j as int);
            }
            return Some(j);
        }
        j += 1;
    }
    proof {
        lemma_first_index_absent(range@, *p);
    }
    None
}

/// The fingering that string `r` offers for `p`, if its range reaches `p`.
pub open spec fn spec_string_fingering(r: (StringNumber, Vec<Pitch>), p: Pitch) -> Seq<
    PitchFingering,
> {
    if spec_first_index(r.1@, p) >= 0 {
        seq![
            PitchFingering {
                pitch: p,
                string_number: r.0,
                fret: spec_first_index(r.1@, p) as u8,
            },
        ]
    } else {
        Seq::empty()
    }
}

/// All fingerings for `p` over the given string ranges, in string order.
pub open spec fn spec_pitch_fingerings(
    rs: Seq<(StringNumber, Vec<Pitch>)>,
    p: Pitch,
) -> Seq<PitchFingering>
    decreases rs.len(),
{
    if rs.len() == 0 {
        Seq::empty()
    } else {
        spec_pitch_fingerings(rs.drop_last(), p) + spec_string_fingering(rs.last(), p)
    }
}

/// All positions at which `pitch` can be played, one per string that reaches it,
/// in string order. The fret is the position of the pitch within the string's range.
pub fn generate_pitch_fingerings(
    string_ranges: &Vec<(StringNumber, Vec<Pitch>)>,
    pitch: &Pitch,
) -> (r: Vec<PitchFingering>)
    requires
        forall|i: int| 0 <= i < string_ranges@.len() ==> string_ranges@[i].1@.len() <= 256,
    ensures
        r@ == spec_pitch_fingerings(string_ranges@, *pitch),
{
    let mut r: Vec<PitchFingering> = Vec::new();
    let mut i: usize = 0;
    while i < string_ranges.len()
        invariant
            i <= string_ranges@.len(),
            forall|t: int| 0 <= t < string_ranges@.len() ==> string_ranges@[t].1@.len() <= 256,
            r@ == spec_pitch_fingerings(string_ranges@.subrange(0, i as int), *pitch),
        decreases string_ranges@.len() - i,
    {
        let entry = &string_ranges[i];
        match position_of(&entry.1, pitch) {
            Some(j) => {
                r.push(PitchFingering { pitch: *pitch, string_number: entry.0, fret: j as u8 });
            },
            None => {},
        }
        proof {
            let pre = string_ranges@.subrange(0, i as int);
            let cur = string_ranges@.subrange(0, (i + 1) as int);
            assert(cur.drop_last() =~= pre);
            assert(cur.last() == string_ranges@[i as int]);
            assert(r@ =~= spec_pitch_fingerings(cur, *pitch));
        }
        i += 1;
    }
    proof {
        assert(string_ranges@.subrange(0, string_ranges@.len() as int) =~= string_ranges@);
    }
    r
}



proof fn lemma_pitch_index_le(p: Pitch)
    ensures
        p.as_index() <= 119,
{
}

proof fn lemma_pitch_index_injective(a: Pitch, b: Pitch)
    requires
        a.as_index() == b.as_index(),
    ensures
        a == b,
{
}

/// Checks the requested fret count against the configured maximum.
pub fn check_fret_number(num_frets: u8) -> (r: Result<(), GuitarError>)
    ensures
        num_frets <= MAX_NUM_FRETS ==> r is Ok,
        num_frets > MAX_NUM_FRETS ==> r == Result::<(), GuitarError>::Err(
            GuitarError::TooManyFrets(num_frets),
        ),
{
    if num_frets > MAX_NUM_FRETS {
        Err(GuitarError::TooManyFrets(num_frets))
    } else {
        Ok(())
    }
}

/// Checks the requested capo fret against the configured maximum.
pub fn check_capo_number(capo: u8) -> (r: Result<(), GuitarError>)
    ensures
        capo <= MAX_CAPO ==> r is Ok,
        capo > MAX_CAPO ==> r == Result::<(), GuitarError>::Err(GuitarError::CapoTooHigh(capo)),
{
    if capo > MAX_CAPO {
        Err(GuitarError::CapoTooHigh(capo))
    } else {
        Ok(())
    }
}

/// The consecutive pitches reachable on a string: its open pitch followed by one pitch
/// per fret, one semitone each.
pub fn create_string_range(open_string_pitch: &Pitch, num_frets: u8) -> (r: Result<
    Vec<Pitch>,
    GuitarError,
>)
    ensures
        open_string_pitch.as_index() + num_frets <= 119 ==> (r matches Ok(v) && v@.len()
            == num_frets + 1 && (forall|j: int|
            0 <= j < v@.len() ==> (#[trigger] v@[j]).as_index() == open_string_pitch.as_index()
                + j)),
        open_string_pitch.as_index() + num_frets > 119 ==> r == Result::<
            Vec<Pitch>,
            GuitarError,
        >::Err(GuitarError::StringRangeTooLong { num_frets, open_pitch: *open_string_pitch }),
{
    let open_idx = open_string_pitch.index();
    if open_idx as u16 + num_frets as u16 > 119 {
        return Err(GuitarError::StringRangeTooLong { num_frets, open_pitch: *open_string_pitch });
    }
    let mut v: Vec<Pitch> = Vec::new();
    let mut j: u16 = 0;
    while j <= num_frets as u16
        invariant
            open_idx == open_string_pitch.as_index(),
            open_idx + num_frets <= 119,
            j <= num_frets + 1,
            v@.len() == j,
            forall|t: int| 0 <= t < j ==> (#[trigger] v@[t]).as_index() == open_idx + t,
        decreases num_frets + 1 - j,
    {
        match Pitch::from_index((open_idx as u16 + j) as u8) {
            Some(p) => {
                v.push(p);
            },
            None => {
                proof {
                    assert(false);
                }
            },
        }
        j += 1;
    }
    Ok(v)
}

/// Fingerings for one pitch: each names the pitch itself, and their string
/// numbers strictly ascend, so no two are on the same string.
pub proof fn lemma_pitch_fingerings_facts(rs: Seq<(StringNumber, Vec<Pitch>)>, p: Pitch)
    requires
        forall|i: int, j: int|
            0 <= i < j < rs.len() ==> (#[trigger] rs[i]).0.value() < (#[trigger] rs[j]).0.value(),
    ensures
        forall|a: int|
            0 <= a < spec_pitch_fingerings(rs, p).len() ==> (#[trigger] spec_pitch_fingerings(
                rs,
                p,
            )[a]).pitch == p,
        forall|a: int|
            0 <= a < spec_pitch_fingerings(rs, p).len() ==> (exists|i: int|
                0 <= i < rs.len() && (#[trigger] spec_pitch_fingerings(rs, p)[a]).string_number == (
                #[trigger] rs[i]).0 && spec_pitch_fingerings(rs, p)[a].fret < rs[i].1@.len()),
        forall|a: int, b: int|
            0 <= a < b < spec_pitch_fingerings(rs, p).len() ==> (#[trigger] spec_pitch_fingerings(
                rs,
                p,
            )[a]).string_number.value() < (#[trigger] spec_pitch_fingerings(
                rs,
                p,
            )[b]).string_number.value(),
    decreases rs.len(),
{
    if rs.len() > 0 {
        let d = rs.drop_last();
        assert forall|i: int, j: int|
            0 <= i < j < d.len() implies (#[trigger] d[i]).0.value() < (
        #[trigger] d[j]).0.value() by {
            assert(d[i] == rs[i] && d[j] == rs[j]);
        }
        lemma_pitch_fingerings_facts(d, p);
        let whole = spec_pitch_fingerings(rs, p);
        let pre = spec_pitch_fingerings(d, p);
        assert forall|a: int|
            0 <= a < whole.len() implies (exists|i: int|
            0 <= i < rs.len() && (#[trigger] whole[a]).string_number == (#[trigger] rs[i]).0
                && whole[a].fret < rs[i].1@.len()) by {
            if a < pre.len() {
                let i = choose|i: int|
                    0 <= i < d.len() && (#[trigger] pre[a]).string_number == (#[trigger] d[i]).0
                        && pre[a].fret < d[i].1@.len();
                assert(whole[a].string_number == rs[i].0 && whole[a].fret < rs[i].1@.len());
            } else {
                lemma_first_index_in_range(rs[rs.len() - 1].1@, p);
                assert(whole[a].string_number == rs[rs.len() - 1].0);
                assert(whole[a].fret < rs[rs.len() - 1].1@.len());
            }
        }
        assert forall|a: int, b: int|
            0 <= a < b < whole.len() implies (#[trigger] whole[a]).string_number.value() < (
        #[trigger] whole[b]).string_number.value() by {
            if b < pre.len() {
                assert(whole[a] == pre[a] && whole[b] == pre[b]);
            } else {
                assert(whole[b].string_number == rs[rs.len() - 1].0);
                let i = choose|i: int|
                    0 <= i < d.len() && (#[trigger] pre[a]).string_number == (#[trigger] d[i]).0;
                assert(rs[i].0.value() < rs[rs.len() - 1].0.value());
            }
        }
    }
}

/// A guitar configuration: the capo-adjusted tuning, the fret count left above the capo,
/// every reachable pitch, and the per-string pitch ranges.
#[derive(Debug, Clone, PartialEq, Eq)]
pub struct Guitar {
    pub tuning: Vec<(StringNumber, Pitch)>,
    pub num_frets: u8,
    pub range: Vec<Pitch>,
    pub string_ranges: Vec<(StringNumber, Vec<Pitch>)>,
}

impl Default for Guitar {
    /// The standard guitar: six strings in standard tuning, 18 frets, no capo.
    fn default() -> (r: Guitar)
        ensures
            r.wf(),
            r.num_frets == 18,
            r.tuning@.len() == 6,
            forall|i: int| 0 <= i < 6 ==> (#[trigger] r.tuning@[i]).0.value() == i + 1,
    {
        let pitches = std_tuning_open_pitches();
        let tuning = create_string_tuning(&pitches);
        proof {
            assert forall|i: int|
                0 <= i < tuning@.len() implies (#[trigger] tuning@[i]).1.as_index() + 18
                <= 119 by {
                assert(tuning@[i].1 == pitches@[i]);
                assert(pitches@[i].as_index() <= 52);
            }
        }
        match Guitar::new(tuning, 18, 0) {
            Ok(g) => g,
            Err(_) => {
                proof {
                    assert(false);
                }
                Guitar {
                    tuning: Vec::new(),
                    num_frets: 0,
                    range: Vec::new(),
                    string_ranges: Vec::new(),
                }
            },
        }
    }
}

impl Guitar {
    /// Well-formedness: string numbers strictly ascend, and each string's range runs one
    /// semitone per fret from its open pitch.
    pub open spec fn wf(self) -> bool {
        &&& self.num_frets <= MAX_NUM_FRETS
        &&& self.string_ranges@.len() == self.tuning@.len()
        &&& (forall|i: int, j: int|
            0 <= i < j < self.tuning@.len() ==> (#[trigger] self.tuning@[i]).0.value() < (
            #[trigger] self.tuning@[j]).0.value())
        &&& (forall|i: int|
            0 <= i < self.string_ranges@.len() ==> (#[trigger] self.string_ranges@[i]).0
                == self.tuning@[i].0)
        &&& (forall|i: int|
            0 <= i < self.string_ranges@.len() ==> (#[trigger] self.string_ranges@[i]).1@.len()
                == self.num_frets + 1)
        &&& (forall|i: int, j: int|
            0 <= i < self.string_ranges@.len() && 0 <= j < self.string_ranges@[i].1@.len() ==> (
            #[trigger] self.string_ranges@[i].1@[j]).as_index() == self.tuning@[i].1.as_index()
                + j)
    }

    /// Whether `p` is reachable on some string of this guitar.
    pub open spec fn spec_reachable(self, p: Pitch) -> bool {
        exists|i: int|
            0 <= i < self.tuning@.len() && (#[trigger] self.tuning@[i]).1.as_index()
                <= p.as_index() <= self.tuning@[i].1.as_index() + self.num_frets
    }

    /// Builds a guitar from a tuning, a fret count and a capo position.
    ///
    /// The tuning is taken as a map: string numbers strictly ascending. The capo shifts
    /// every open pitch up and shortens the playable fret range by the same amount.
    pub fn new(tuning: Vec<(StringNumber, Pitch)>, num_frets: u8, capo: u8) -> (r: Result<
        Guitar,
        GuitarError,
    >)
        requires
            forall|i: int, j: int|
                0 <= i < j < tuning@.len() ==> (#[trigger] tuning@[i]).0.value() < (
                #[trigger] tuning@[j]).0.value(),
            (num_frets <= MAX_NUM_FRETS && capo <= MAX_CAPO) ==> capo <= num_frets,
            (num_frets <= MAX_NUM_FRETS && capo <= MAX_CAPO) ==> (forall|i: int|
                0 <= i < tuning@.len() ==> (#[trigger] tuning@[i]).1.as_index() + capo <= 119),
        ensures
            num_frets > MAX_NUM_FRETS ==> r == Result::<Guitar, GuitarError>::Err(
                GuitarError::TooManyFrets(num_frets),
            ),
            num_frets <= MAX_NUM_FRETS && capo > MAX_CAPO ==> r == Result::<Guitar, GuitarError>::Err(
                GuitarError::CapoTooHigh(capo),
            ),
            num_frets <= MAX_NUM_FRETS && capo <= MAX_CAPO && (exists|i: int|
                0 <= i < tuning@.len() && (#[trigger] tuning@[i]).1.as_index() + num_frets > 119)
                ==> (r matches Err(e) && (exists|i: int|
                {
                    &&& 0 <= i < tuning@.len()
                    &&& (#[trigger] tuning@[i]).1.as_index() + num_frets > 119
                    &&& (forall|t: int|
                        0 <= t < i ==> (#[trigger] tuning@[t]).1.as_index() + num_frets <= 119)
                    &&& (e matches GuitarError::StringRangeTooLong { num_frets: nf, open_pitch: p }
                        && nf == num_frets - capo && p.as_index() == tuning@[i].1.as_index()
                        + capo)
                })),
            num_frets <= MAX_NUM_FRETS && capo <= MAX_CAPO && (forall|i: int|
                0 <= i < tuning@.len() ==> (#[trigger] tuning@[i]).1.as_index() + num_frets <= 119)
                ==> (r matches Ok(g) && {
                &&& g.wf()
                &&& g.num_frets == num_frets - capo
                &&& g.tuning@.len() == tuning@.len()
                &&& (forall|i: int|
                    0 <= i < tuning@.len() ==> (#[trigger] g.tuning@[i]).0 == tuning@[i].0)
                &&& (forall|i: int|
                    0 <= i < tuning@.len() ==> (#[trigger] g.tuning@[i]).1.as_index()
                        == tuning@[i].1.as_index() + capo)
                &&& (forall|k: int, l: int|
                    0 <= k < l < g.range@.len() ==> (#[trigger] g.range@[k]).as_index() < (
                    #[trigger] g.range@[l]).as_index())
                &&& (forall|p: Pitch| #[trigger] g.range@.contains(p) <==> g.spec_reachable(p))
            }),
    {
        match check_fret_number(num_frets) {
            Err(e) => {
                return Err(e);
            },
            Ok(_) => {},
        }
        match check_capo_number(capo) {
            Err(e) => {
                return Err(e);
            },
            Ok(_) => {},
        }
        let adj_frets = num_frets - capo;

        let mut adjusted: Vec<(StringNumber, Pitch)> = Vec::new();
        let mut i: usize = 0;
        while i < tuning.len()
            invariant
                i <= tuning@.len(),
                adjusted@.len() == i,
                capo <= MAX_CAPO,
                forall|t: int|
                    0 <= t < tuning@.len() ==> (#[trigger] tuning@[t]).1.as_index() + capo <= 119,
                forall|t: int| 0 <= t < i ==> (#[trigger] adjusted@[t]).0 == tuning@[t].0,
                forall|t: int|
                    0 <= t < i ==> (#[trigger] adjusted@[t]).1.as_index() == tuning@[t].1.as_index()
                        + capo,
            decreases tuning@.len() - i,
        {
            let entry = tuning[i];
            match entry.1.plus_offset(capo as i16) {
                Some(p) => {
                    adjusted.push((entry.0, p));
                },
                None => {
                    proof {
                        assert(false);
                    }
                },
            }
            i += 1;
        }

        let mut string_ranges: Vec<(StringNumber, Vec<Pitch>)> = Vec::new();
        let mut i: usize = 0;
        while i < adjusted.len()
            invariant
                i <= adjusted@.len(),
                string_ranges@.len() == i,
                adjusted@.len() == tuning@.len(),
                capo <= MAX_CAPO,
                num_frets <= MAX_NUM_FRETS,
                capo <= num_frets,
                adj_frets == num_frets - capo,
                forall|t: int| 0 <= t < adjusted@.len() ==> (#[trigger] adjusted@[t]).0 == tuning@[t].0,
                forall|t: int|
                    0 <= t < adjusted@.len() ==> (#[trigger] adjusted@[t]).1.as_index()
                        == tuning@[t].1.as_index() + capo,
                forall|t: int|
                    0 <= t < i ==> (#[trigger] tuning@[t]).1.as_index() + num_frets <= 119,
                forall|t: int|
                    0 <= t < i ==> (#[trigger] string_ranges@[t]).0 == tuning@[t].0,
                forall|t: int|
                    0 <= t < i ==> (#[trigger] string_ranges@[t]).1@.len() == adj_frets + 1,
                forall|t: int, j: int|
                    0 <= t < i && 0 <= j < string_ranges@[t].1@.len() ==> (
                    #[trigger] string_ranges@[t].1@[j]).as_index() == adjusted@[t].1.as_index()
                        + j,
            decreases adjusted@.len() - i,
        {
            let entry = &adjusted[i];
            match create_string_range(&entry.1, adj_frets) {
                Ok(range) => {
                    string_ranges.push((entry.0, range));
                },
                Err(e) => {
                    return Err(e);
                },
            }
            i += 1;
        }

        let mut range: Vec<Pitch> = Vec::new();
        let mut idx: u16 = 0;
        while idx <= 119
            invariant
                idx <= 120,
                adjusted@.len() == tuning@.len(),
                capo <= num_frets <= MAX_NUM_FRETS,
                adj_frets == num_frets - capo,
                forall|t: int|
                    0 <= t < adjusted@.len() ==> (#[trigger] adjusted@[t]).1.as_index()
                        == tuning@[t].1.as_index() + capo,
                forall|k: int, l: int|
                    0 <= k < l < range@.len() ==> (#[trigger] range@[k]).as_index() < (
                    #[trigger] range@[l]).as_index(),
                forall|k: int| 0 <= k < range@.len() ==> (#[trigger] range@[k]).as_index() < idx,
                forall|p: Pitch|
                    #[trigger] range@.contains(p) ==> (p.as_index() < idx && (exists|t: int|
                        0 <= t < tuning@.len() && (#[trigger] tuning@[t]).1.as_index() + capo
                            <= p.as_index() <= tuning@[t].1.as_index() + num_frets)),
                forall|p: Pitch|
                    (p.as_index() < idx && (exists|t: int|
                        0 <= t < tuning@.len() && (#[trigger] tuning@[t]).1.as_index() + capo
                            <= p.as_index() <= tuning@[t].1.as_index() + num_frets)) ==> range@.contains(
                        p,
                    ),
            decreases 120 - idx,
        {
            let mut found = false;
            let mut t: usize = 0;
            while t < adjusted.len()
                invariant
                    t <= adjusted@.len(),
                    adjusted@.len() == tuning@.len(),
                    capo <= num_frets,
                    adj_frets == num_frets - capo,
                    forall|u: int|
                        0 <= u < adjusted@.len() ==> (#[trigger] adjusted@[u]).1.as_index()
                            == tuning@[u].1.as_index() + capo,
                    found ==> (exists|u: int|
                        0 <= u < tuning@.len() && (#[trigger] tuning@[u]).1.as_index() + capo <= idx
                            <= tuning@[u].1.as_index() + num_frets),
                    !found ==> (forall|u: int|
                        0 <= u < t ==> !((#[trigger] tuning@[u]).1.as_index() + capo <= idx
                            <= tuning@[u].1.as_index() + num_frets)),
                decreases adjusted@.len() - t,
            {
                let open = adjusted[t].1.index();
                if open as u16 <= idx && idx <= open as u16 + adj_frets as u16 {
                    found = true;
                }
                t += 1;
            }
            if found {
                match Pitch::from_index(idx as u8) {
                    Some(p) => {
                        let ghost pre = range@;
                        range.push(p);
                        proof {
                            assert forall|q: Pitch| #[trigger] range@.contains(q) implies (
                            q.as_index() < idx + 1 && (exists|u: int|
                                0 <= u < tuning@.len() && (#[trigger] tuning@[u]).1.as_index()
                                    + capo <= q.as_index() <= tuning@[u].1.as_index()
                                    + num_frets)) by {
                                let w = choose|w: int| 0 <= w < range@.len() && range@[w] == q;
                                if w < pre.len() {
                                    assert(pre.contains(q));
                                } else {
                                    assert(q == p);
                                }
                            }
                            assert forall|q: Pitch|
                                (q.as_index() < idx + 1 && (exists|u: int|
                                    0 <= u < tuning@.len() && (#[trigger] tuning@[u]).1.as_index()
                                        + capo <= q.as_index() <= tuning@[u].1.as_index()
                                        + num_frets)) implies range@.contains(q) by {
                                if q.as_index() < idx {
                                    assert(pre.contains(q));
                                    let w = choose|w: int| 0 <= w < pre.len() && pre[w] == q;
                                    assert(range@[w] == q);
                                } else {
                                    lemma_pitch_index_injective(q, p);
                                    assert(range@[range@.len() - 1] == q);
                                }
                            }
                        }
                    },
                    None => {
                        proof {
                            assert(false);
                        }
                    },
                }
            } else {
                proof {
                    assert forall|q: Pitch|
                        (q.as_index() < idx + 1 && (exists|u: int|
                            0 <= u < tuning@.len() && (#[trigger] tuning@[u]).1.as_index() + capo
                                <= q.as_index() <= tuning@[u].1.as_index()
                                + num_frets)) implies range@.contains(q) by {
                        if q.as_index() == idx as int {
                            assert(false);
                        }
                    }
                }
            }
            idx += 1;
        }

        let g = Guitar { tuning: adjusted, num_frets: adj_frets, range, string_ranges };
        proof {
            assert forall|p: Pitch| #[trigger] p.as_index() < 120 by {
                lemma_pitch_index_le(p);
            }
            assert forall|p: Pitch| #[trigger] g.range@.contains(p) implies g.spec_reachable(
                p,
            ) by {
                let u = choose|t: int|
                    0 <= t < tuning@.len() && (#[trigger] tuning@[t]).1.as_index() + capo
                        <= p.as_index() <= tuning@[t].1.as_index() + num_frets;
                assert(g.tuning@[u].1.as_index() <= p.as_index() <= g.tuning@[u].1.as_index()
                    + g.num_frets);
            }
            assert forall|p: Pitch| #[trigger] g.spec_reachable(p) implies g.range@.contains(
                p,
            ) by {
                let u = choose|i: int|
                    0 <= i < g.tuning@.len() && (#[trigger] g.tuning@[i]).1.as_index()
                        <= p.as_index() <= g.tuning@[i].1.as_index() + g.num_frets;
                lemma_pitch_index_le(p);
                assert(tuning@[u].1.as_index() + capo <= p.as_index() <= tuning@[u].1.as_index()
                    + num_frets);
            }
        }
        Ok(g)
    }
}

} // verus!
