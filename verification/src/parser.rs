use vstd::prelude::*;
use vstd::string::StrSliceExecFns;
use vstd::string::StringExecFns;
use crate::arrangement::Line;
use crate::guitar::create_string_tuning;
use crate::guitar::std_tuning_open_pitches;
use crate::pitch::Pitch;
use crate::string_number::StringNumber;
use crate::text::{spec_udec, string_of_chars, u16_to_string, usize_to_string};

verus! {

/// A named alternative tuning.
#[derive(Debug, Clone, Copy, PartialEq, Eq, Structural)]
pub enum TuningName {
    OpenG,
    OpenD,
    C6,
    Dsus4,
    DropD,
    DropC,
    OpenC,
    DropB,
    OpenE,
}

/// The names of the known alternative tunings, in declaration order.
pub fn get_tuning_names() -> (r: Vec<String>) {
    let mut v: Vec<String> = Vec::new();
    v.push(String::from_str("OpenG"));
    v.push(String::from_str("OpenD"));
    v.push(String::from_str("C6"));
    v.push(String::from_str("Dsus4"));
    v.push(String::from_str("DropD"));
    v.push(String::from_str("DropC"));
    v.push(String::from_str("OpenC"));
    v.push(String::from_str("DropB"));
    v.push(String::from_str("OpenE"));
    v
}

/// Lower-cases an ASCII character, leaving anything else alone.
pub open spec fn spec_lower(c: char) -> char {
    if 'A' <= c <= 'Z' {
        ((c as u32) + 32) as char
    } else {
        c
    }
}

/// The lower-cased characters of a string.
pub open spec fn spec_lowered(s: Seq<char>) -> Seq<char> {
    s.map_values(|c: char| spec_lower(c))
}

/// Lower-cases the ASCII letters of a string.
fn to_ascii_lowercase(s: &str) -> (r: Vec<char>)
    ensures
        r@ == spec_lowered(s@),
{
    let n = s.unicode_len();
    let mut out: Vec<char> = Vec::new();
    let mut i: usize = 0;
    while i < n
        invariant
            i <= n,
            n == s@.len(),
            out@.len() == i,
            forall|t: int| 0 <= t < i ==> #[trigger] out@[t] == spec_lower(s@[t]),
        decreases n - i,
    {
        let c = s.get_char(i);
        if 'A' <= c && c <= 'Z' {
            out.push((((c as u32) + 32) as u8) as char);
            proof {
                assert(((((c as u32) + 32) as u8) as char) == spec_lower(s@[i as int]));
            }
        } else {
            out.push(c);
        }
        i += 1;
    }
    proof {
        assert(out@ =~= spec_lowered(s@));
    }
    out
}

/// Whether two character vectors hold the same characters.
fn chars_eq_lit(v: &Vec<char>, s: &str) -> (r: bool)
    ensures
        r == (v@ == s@),
{
    let n = s.unicode_len();
    if v.len() != n {
        proof {
            assert(v@.len() != s@.len());
        }
        return false;
    }
    let mut i: usize = 0;
    while i < n
        invariant
            i <= n,
            n == s@.len(),
            v@.len() == n,
            forall|t: int| 0 <= t < i ==> #[trigger] v@[t] == s@[t],
        decreases n - i,
    {
        if v[i] != s.get_char(i) {
            return false;
        }
        i += 1;
    }
    proof {
        assert(v@ =~= s@);
    }
    true
}

/// The named tuning a string stands for, matched without regard to case.
fn match_tuning_name(lowered: &Vec<char>) -> (r: Option<TuningName>)
    ensures
        lowered@ == "openg"@ ==> r == Some(TuningName::OpenG),
        lowered@ == "dadgad"@ ==> r == Some(TuningName::Dsus4),
        lowered@ == "dropd"@ ==> r == Some(TuningName::DropD),
        lowered@ == "dropc"@ ==> r == Some(TuningName::DropC),
{
    proof {
        reveal_strlit("openg");
        reveal_strlit("opend");
        reveal_strlit("c6");
        reveal_strlit("dadgad");
        reveal_strlit("dropd");
        reveal_strlit("dropc");
        reveal_strlit("openc");
        reveal_strlit("dropb");
        reveal_strlit("opene");
        assert("openg"@ =~= seq!['o', 'p', 'e', 'n', 'g']);
        assert("opend"@ =~= seq!['o', 'p', 'e', 'n', 'd']);
        assert("c6"@ =~= seq!['c', '6']);
        assert("dadgad"@ =~= seq!['d', 'a', 'd', 'g', 'a', 'd']);
        assert("dropd"@ =~= seq!['d', 'r', 'o', 'p', 'd']);
        assert("dropc"@ =~= seq!['d', 'r', 'o', 'p', 'c']);
        assert("openg"@ != "dropd"@ && "opend"@ != "dropd"@ && "openg"@ != "dropc"@ && "opend"@
            != "dropc"@ && "dropd"@ != "dropc"@ && "c6"@ != "dropd"@ && "c6"@ != "dropc"@
            && "dadgad"@ != "dropd"@ && "dadgad"@ != "dropc"@ && "openg"@ != "dadgad"@ && "opend"@
            != "dadgad"@ && "c6"@ != "dadgad"@);
    }
    if chars_eq_lit(lowered, "openg") {
        Some(TuningName::OpenG)
    } else if chars_eq_lit(lowered, "opend") {
        Some(TuningName::OpenD)
    } else if chars_eq_lit(lowered, "c6") {
        Some(TuningName::C6)
    } else if chars_eq_lit(lowered, "dadgad") {
        Some(TuningName::Dsus4)
    } else if chars_eq_lit(lowered, "dropd") {
        Some(TuningName::DropD)
    } else if chars_eq_lit(lowered, "dropc") {
        Some(TuningName::DropC)
    } else if chars_eq_lit(lowered, "openc") {
        Some(TuningName::OpenC)
    } else if chars_eq_lit(lowered, "dropb") {
        Some(TuningName::DropB)
    } else if chars_eq_lit(lowered, "opene") {
        Some(TuningName::OpenE)
    } else {
        None
    }
}

/// The per-string semitone offsets, relative to standard tuning, that a tuning
/// name stands for. An unknown name falls back to the standard tuning.
pub fn parse_tuning(tuning_name: &str) -> (r: [i8; 6])
    ensures
        spec_lowered(tuning_name@) == "openg"@ ==> r@ == seq![-2i8, 0i8, 0i8, 0i8, -2i8, -2i8],
        spec_lowered(tuning_name@) == "dropd"@ ==> r@ == seq![-2i8, 0i8, 0i8, 0i8, 0i8, 0i8],
        spec_lowered(tuning_name@) == "dropc"@ ==> r@ == seq![-4i8, -2i8, -2i8, -2i8, -2i8, -2i8],
        spec_lowered(tuning_name@) == "dadgad"@ ==> r@ == seq![-2i8, 0i8, 0i8, 0i8, -2i8, -2i8],
        forall|k: int| 0 <= k < 6 ==> -5 <= #[trigger] r@[k] <= 1,
{
    let lowered = to_ascii_lowercase(tuning_name);
    let r: [i8; 6] = match match_tuning_name(&lowered) {
        Some(TuningName::OpenG) => [-2, 0, 0, 0, -2, -2],
        Some(TuningName::OpenD) => [-2, 0, 0, -1, -2, -2],
        Some(TuningName::C6) => [-4, 0, -2, 0, 1, 0],
        Some(TuningName::Dsus4) => [-2, 0, 0, 0, -2, -2],
        Some(TuningName::DropD) => [-2, 0, 0, 0, 0, 0],
        Some(TuningName::DropC) => [-4, -2, -2, -2, -2, -2],
        Some(TuningName::OpenC) => [-4, -2, -2, 0, 1, 0],
        Some(TuningName::DropB) => [-5, -3, -3, -3, -3, -3],
        Some(TuningName::OpenE) => [0, -2, -2, -2, 0, 0],
        None => [0, 0, 0, 0, 0, 0],
    };
    r
}

/// The open pitches obtained by offsetting the standard tuning by the given
/// number of semitones per string, paired with their string numbers.
pub fn create_string_tuning_offset(offsets: [i8; 6]) -> (r: Vec<(StringNumber, Pitch)>)
    requires
        forall|k: int| 0 <= k < 6 ==> -28 <= #[trigger] offsets@[k] <= 67,
    ensures
        r@.len() == 6,
        forall|i: int| 0 <= i < 6 ==> (#[trigger] r@[i]).0.value() == i + 1,
        forall|i: int|
            0 <= i < 6 ==> (#[trigger] r@[i]).1.as_index() == seq![52int, 47, 43, 38, 33, 28][i]
                + offsets@[i],
{
    let std_pitches = std_tuning_open_pitches();
    let mut offset_pitches: Vec<Pitch> = Vec::new();
    let mut i: usize = 0;
    while i < 6
        invariant
            i <= 6,
            std_pitches@ == seq![Pitch::E4, Pitch::B3, Pitch::G3, Pitch::D3, Pitch::A2, Pitch::E2],
            forall|k: int| 0 <= k < 6 ==> -28 <= #[trigger] offsets@[k] <= 67,
            offset_pitches@.len() == i,
            forall|k: int|
                0 <= k < i ==> (#[trigger] offset_pitches@[k]).as_index() == seq![
                    52int,
                    47,
                    43,
                    38,
                    33,
                    28,
                ][k] + offsets@[k],
        decreases 6 - i,
    {
        let p = std_pitches[i];
        proof {
            assert(28 <= p.as_index() <= 52);
            assert(p.as_index() == seq![52int, 47, 43, 38, 33, 28][i as int]);
        }
        match p.plus_offset(offsets[i] as i16) {
            Some(q) => {
                offset_pitches.push(q);
            },
            None => {
                proof {
                    assert(false);
                }
            },
        }
        i += 1;
    }
    create_string_tuning(&offset_pitches)
}


/// Whether `c` carries the Unicode White_Space property, the set of characters
/// that input lines are stripped of.
pub open spec fn spec_is_whitespace(c: char) -> bool {
    ||| c == '\u{09}'
    ||| c == '\u{0A}'
    ||| c == '\u{0B}'
    ||| c == '\u{0C}'
    ||| c == '\u{0D}'
    ||| c == ' '
    ||| c == '\u{85}'
    ||| c == '\u{A0}'
    ||| c == '\u{1680}'
    ||| c == '\u{2000}'
    ||| c == '\u{2001}'
    ||| c == '\u{2002}'
    ||| c == '\u{2003}'
    ||| c == '\u{2004}'
    ||| c == '\u{2005}'
    ||| c == '\u{2006}'
    ||| c == '\u{2007}'
    ||| c == '\u{2008}'
    ||| c == '\u{2009}'
    ||| c == '\u{200A}'
    ||| c == '\u{2028}'
    ||| c == '\u{2029}'
    ||| c == '\u{202F}'
    ||| c == '\u{205F}'
    ||| c == '\u{3000}'
}

fn is_whitespace_char(c: char) -> (r: bool)
    ensures
        r == spec_is_whitespace(c),
{
    c == '\u{09}' || c == '\u{0A}' || c == '\u{0B}' || c == '\u{0C}' || c == '\u{0D}' || c == ' '
        || c == '\u{85}' || c == '\u{A0}' || c == '\u{1680}' || c == '\u{2000}' || c == '\u{2001}'
        || c == '\u{2002}' || c == '\u{2003}' || c == '\u{2004}' || c == '\u{2005}' || c
        == '\u{2006}' || c == '\u{2007}' || c == '\u{2008}' || c == '\u{2009}' || c == '\u{200A}'
        || c == '\u{2028}' || c == '\u{2029}' || c == '\u{202F}' || c == '\u{205F}' || c
        == '\u{3000}'
}

/// The position of the first line feed at or after `i`, or the length.
pub open spec fn spec_find_newline(s: Seq<char>, i: int) -> int
    decreases s.len() - i,
{
    if i < 0 || i >= s.len() {
        s.len() as int
    } else if s[i] == '\n' {
        i
    } else {
        spec_find_newline(s, i + 1)
    }
}

/// A line piece with a trailing carriage return removed.
pub open spec fn spec_strip_cr(p: Seq<char>) -> Seq<char> {
    if p.len() > 0 && p.last() == '\r' {
        p.drop_last()
    } else {
        p
    }
}

/// The input split into lines from position `i` on: pieces end at line feeds, a
/// trailing carriage return is stripped from each, and a final line feed ends the
/// last line without starting a new one.
pub open spec fn spec_lines_from(s: Seq<char>, i: int) -> Seq<Seq<char>>
    decreases s.len() - i,
{
    if i < 0 || i >= s.len() {
        Seq::empty()
    } else {
        let j0 = spec_find_newline(s, i);
        let j = if j0 < i {
            i
        } else {
            j0
        };
        if j >= s.len() {
            seq![spec_strip_cr(s.subrange(i, s.len() as int))]
        } else {
            seq![spec_strip_cr(s.subrange(i, j))] + spec_lines_from(s, j + 1)
        }
    }
}

proof fn lemma_find_newline_ge(s: Seq<char>, i: int)
    requires
        0 <= i <= s.len(),
    ensures
        i <= spec_find_newline(s, i) <= s.len(),
        spec_find_newline(s, i) < s.len() ==> s[spec_find_newline(s, i)] == '\n',
        forall|t: int| i <= t < spec_find_newline(s, i) ==> s[t] != '\n',
    decreases s.len() - i,
{
    if i < s.len() && s[i] != '\n' {
        lemma_find_newline_ge(s, i + 1);
    }
}

/// Splits the raw input into its lines, each a vector of characters.
fn split_input_lines(s: &str) -> (r: Vec<Vec<char>>)
    ensures
        r@.map_values(|v: Vec<char>| v@) == spec_lines_from(s@, 0),
{
    let n = s.unicode_len();
    let mut out: Vec<Vec<char>> = Vec::new();
    let mut pos: usize = 0;
    while pos < n
        invariant
            pos <= n,
            n == s@.len(),
            out@.map_values(|v: Vec<char>| v@) + spec_lines_from(s@, pos as int) =~= spec_lines_from(
                s@,
                0,
            ),
        decreases n - pos,
    {
        let ghost pre = out@.map_values(|v: Vec<char>| v@);
        let mut j: usize = pos;
        while j < n && s.get_char(j) != '\n'
            invariant
                pos <= j <= n,
                n == s@.len(),
                forall|t: int| pos <= t < j ==> s@[t] != '\n',
        decreases n - j,
        {
            j += 1;
        }
        proof {
            lemma_find_newline_ge(s@, pos as int);
            if j < n {
                assert(s@[j as int] == '\n');
            }
            assert(spec_find_newline(s@, pos as int) == j);
        }
        let mut piece: Vec<char> = Vec::new();
        let mut t: usize = pos;
        while t < j
            invariant
                pos <= t <= j <= n,
                n == s@.len(),
                piece@ == s@.subrange(pos as int, t as int),
            decreases j - t,
        {
            piece.push(s.get_char(t));
            proof {
                assert(s@.subrange(pos as int, (t + 1) as int) =~= s@.subrange(
                    pos as int,
                    t as int,
                ).push(s@[t as int]));
            }
            t += 1;
        }
        if piece.len() > 0 && piece[piece.len() - 1] == '\r' {
            let _ = piece.pop();
        }
        proof {
            assert(piece@ == spec_strip_cr(s@.subrange(pos as int, j as int)));
        }
        out.push(piece);
        proof {
            assert(out@.map_values(|v: Vec<char>| v@) =~= pre.push(
                spec_strip_cr(s@.subrange(pos as int, j as int)),
            ));
            if j >= n {
                assert(s@.subrange(pos as int, j as int) =~= s@.subrange(
                    pos as int,
                    s@.len() as int,
                ));
                assert(spec_lines_from(s@, pos as int) =~= seq![
                    spec_strip_cr(s@.subrange(pos as int, s@.len() as int)),
                ]);
                assert(spec_lines_from(s@, (j + 1) as int) =~= Seq::<Seq<char>>::empty());
            }
            assert(out@.map_values(|v: Vec<char>| v@) + spec_lines_from(s@, (j + 1) as int)
                =~= spec_lines_from(s@, 0));
        }
        if j < n {
            pos = j + 1;
        } else {
            proof {
                assert(spec_lines_from(s@, n as int) =~= Seq::<Seq<char>>::empty());
                assert(spec_lines_from(s@, (j + 1) as int) =~= Seq::<Seq<char>>::empty());
            }
            pos = n;
        }
    }
    proof {
        assert(spec_lines_from(s@, pos as int) =~= Seq::<Seq<char>>::empty());
        assert(out@.map_values(|v: Vec<char>| v@) =~= spec_lines_from(s@, 0));
    }
    out
}

/// The position where the first comment (a double slash) begins, or the length.
pub open spec fn spec_find_comment(s: Seq<char>, i: int) -> int
    decreases s.len() - i,
{
    if i < 0 || i + 2 > s.len() {
        s.len() as int
    } else if s[i] == '/' && s[i + 1] == '/' {
        i
    } else {
        spec_find_comment(s, i + 1)
    }
}

/// Everything before the first comment marker.
pub open spec fn spec_remove_comments(s: Seq<char>) -> Seq<char> {
    s.subrange(0, spec_find_comment(s, 0))
}

proof fn lemma_find_comment_ge(s: Seq<char>, i: int)
    requires
        0 <= i <= s.len(),
    ensures
        i <= spec_find_comment(s, i) <= s.len(),
    decreases s.len() - i,
{
    if i + 2 <= s.len() && !(s[i] == '/' && s[i + 1] == '/') {
        lemma_find_comment_ge(s, i + 1);
    }
}

/// Cuts an input line at the first comment marker.
pub fn remove_comments(input_line: &Vec<char>) -> (r: Vec<char>)
    ensures
        r@ == spec_remove_comments(input_line@),
{
    let n = input_line.len();
    let mut j: usize = 0;
    while j < n && j + 1 < n && !(input_line[j] == '/' && input_line[j + 1] == '/')
        invariant
            j <= n,
            n == input_line@.len(),
            spec_find_comment(input_line@, 0) == spec_find_comment(input_line@, j as int),
        decreases n - j,
    {
        j += 1;
    }
    let cut = if j < n && j + 1 < n {
        j
    } else {
        n
    };
    proof {
        lemma_find_comment_ge(input_line@, j as int);
        assert(spec_find_comment(input_line@, 0) == cut);
    }
    let mut out: Vec<char> = Vec::new();
    let mut t: usize = 0;
    while t < cut
        invariant
            t <= cut <= n,
            n == input_line@.len(),
            out@ == input_line@.subrange(0, t as int),
        decreases cut - t,
    {
        out.push(input_line[t]);
        proof {
            assert(input_line@.subrange(0, (t + 1) as int) =~= input_line@.subrange(
                0,
                t as int,
            ).push(input_line@[t as int]));
        }
        t += 1;
    }
    out
}

/// The characters that survive whitespace removal, in order.
pub open spec fn spec_remove_whitespace(s: Seq<char>) -> Seq<char>
    decreases s.len(),
{
    if s.len() == 0 {
        Seq::empty()
    } else {
        spec_remove_whitespace(s.drop_last()) + if spec_is_whitespace(s.last()) {
            Seq::<char>::empty()
        } else {
            seq![s.last()]
        }
    }
}

/// Strips every whitespace character from a line.
pub fn remove_whitespace(input: &Vec<char>) -> (r: Vec<char>)
    ensures
        r@ == spec_remove_whitespace(input@),
{
    let mut out: Vec<char> = Vec::new();
    let mut i: usize = 0;
    while i < input.len()
        invariant
            i <= input@.len(),
            out@ == spec_remove_whitespace(input@.subrange(0, i as int)),
        decreases input@.len() - i,
    {
        let c = input[i];
        if !is_whitespace_char(c) {
            out.push(c);
        }
        proof {
            let pre = input@.subrange(0, i as int);
            let cur = input@.subrange(0, (i + 1) as int);
            assert(cur.drop_last() =~= pre);
            assert(cur.last() == input@[i as int]);
            assert(out@ =~= spec_remove_whitespace(cur));
        }
        i += 1;
    }
    proof {
        assert(input@.subrange(0, input@.len() as int) =~= input@);
    }
    out
}

/// A comment-free, whitespace-free line.
pub open spec fn spec_clean(s: Seq<char>) -> Seq<char> {
    spec_remove_whitespace(spec_remove_comments(s))
}


/// Whether every character of the line is `c`.
pub open spec fn spec_all_eq(s: Seq<char>, c: char) -> bool {
    forall|i: int| 0 <= i < s.len() ==> s[i] == c
}

/// A measure-break line: one or more dashes of a single kind (hyphen, en dash or
/// em dash), nothing else.
pub open spec fn spec_is_measure_break(s: Seq<char>) -> bool {
    s.len() > 0 && (spec_all_eq(s, '-') || spec_all_eq(s, '–') || spec_all_eq(s, '—'))
}

fn all_chars_eq(s: &Vec<char>, c: char) -> (r: bool)
    ensures
        r == spec_all_eq(s@, c),
{
    let mut i: usize = 0;
    while i < s.len()
        invariant
            i <= s@.len(),
            forall|t: int| 0 <= t < i ==> s@[t] == c,
        decreases s@.len() - i,
    {
        if s[i] != c {
            return false;
        }
        i += 1;
    }
    true
}

/// Recognizes an empty (comment- and whitespace-free) line as a rest.
pub fn parse_rest(line_content: &Vec<char>) -> (r: Option<Line<Vec<Pitch>>>)
    ensures
        line_content@.len() == 0 ==> r == Option::<Line<Vec<Pitch>>>::Some(Line::Rest),
        line_content@.len() != 0 ==> r is None,
{
    if line_content.len() == 0 {
        Some(Line::Rest)
    } else {
        None
    }
}

/// Recognizes a line of uniform dashes as a measure break.
pub fn parse_measure_break(line_content: &Vec<char>) -> (r: Option<Line<Vec<Pitch>>>)
    ensures
        spec_is_measure_break(line_content@) ==> r == Option::<Line<Vec<Pitch>>>::Some(
            Line::MeasureBreak,
        ),
        !spec_is_measure_break(line_content@) ==> r is None,
{
    if line_content.len() > 0 && (all_chars_eq(line_content, '-') || all_chars_eq(
        line_content,
        '–',
    ) || all_chars_eq(line_content, '—')) {
        Some(Line::MeasureBreak)
    } else {
        None
    }
}

/// A pitch letter, in either case.
pub open spec fn spec_is_letter(c: char) -> bool {
    ('A' <= c <= 'G') || ('a' <= c <= 'g')
}

/// A character accepted between a pitch letter and its octave digit.
pub open spec fn spec_is_accidental(c: char) -> bool {
    c == '#' || c == '♯' || c == 'b' || c == 'B' || c == '♭' || c == '|'
}

/// A decimal digit.
pub open spec fn spec_is_digit(c: char) -> bool {
    '0' <= c <= '9'
}

/// The semitone class of a pitch letter within its octave.
pub open spec fn spec_letter_semitone(c: char) -> int {
    let l = spec_lower(c);
    if l == 'a' {
        9
    } else if l == 'b' {
        11
    } else if l == 'c' {
        0
    } else if l == 'd' {
        2
    } else if l == 'e' {
        4
    } else if l == 'f' {
        5
    } else {
        7
    }
}

/// The numeric value of a digit character.
pub open spec fn spec_digit_val(c: char) -> int {
    c as int - '0' as int
}

/// The pitch index a token denotes, or -1 when no pitch is spelled that way.
/// A two-character token is a natural; a three-character token must name one of
/// the five sharp/flat tones.
pub open spec fn spec_token_index(s: Seq<char>, i: int, l: int) -> int {
    if l == 2 {
        spec_digit_val(s[i + 1]) * 12 + spec_letter_semitone(s[i])
    } else {
        let off = if s[i + 1] == '#' || s[i + 1] == '♯' {
            1int
        } else if s[i + 1] == 'b' || s[i + 1] == 'B' || s[i + 1] == '♭' {
            -1int
        } else {
            -100
        };
        let semi = spec_letter_semitone(s[i]) + off;
        if semi == 1 || semi == 3 || semi == 6 || semi == 8 || semi == 10 {
            spec_digit_val(s[i + 2]) * 12 + semi
        } else {
            -1
        }
    }
}

/// Whether a three-character token starts at `i`.
pub open spec fn spec_tok3_at(s: Seq<char>, i: int) -> bool {
    i + 3 <= s.len() && spec_is_letter(s[i]) && spec_is_accidental(s[i + 1]) && spec_is_digit(
        s[i + 2],
    )
}

/// Whether a two-character token starts at `i`.
pub open spec fn spec_tok2_at(s: Seq<char>, i: int) -> bool {
    i + 2 <= s.len() && spec_is_letter(s[i]) && spec_is_digit(s[i + 1])
}

/// The pitch indices recognized from position `i` on, scanning left to right and
/// preferring the longer token.
pub open spec fn spec_pitch_indices_from(s: Seq<char>, i: int) -> Seq<int>
    decreases s.len() - i,
{
    if i < 0 || i >= s.len() {
        Seq::empty()
    } else if spec_tok3_at(s, i) {
        (if spec_token_index(s, i, 3) >= 0 {
            seq![spec_token_index(s, i, 3)]
        } else {
            Seq::<int>::empty()
        }) + spec_pitch_indices_from(s, i + 3)
    } else if spec_tok2_at(s, i) {
        seq![spec_token_index(s, i, 2)] + spec_pitch_indices_from(s, i + 2)
    } else {
        spec_pitch_indices_from(s, i + 1)
    }
}

/// The positions from `i` on that no valid pitch token covers, in ascending
/// order: gaps between tokens and the spans of tokens that name no pitch.
pub open spec fn spec_unmatched_from(s: Seq<char>, i: int) -> Seq<int>
    decreases s.len() - i,
{
    if i < 0 || i >= s.len() {
        Seq::empty()
    } else if spec_tok3_at(s, i) {
        (if spec_token_index(s, i, 3) >= 0 {
            Seq::<int>::empty()
        } else {
            seq![i, i + 1, i + 2]
        }) + spec_unmatched_from(s, i + 3)
    } else if spec_tok2_at(s, i) {
        spec_unmatched_from(s, i + 2)
    } else {
        seq![i] + spec_unmatched_from(s, i + 1)
    }
}

/// Unmatched positions are strictly ascending and lie in `[i, s.len())`.
proof fn lemma_unmatched_sorted(s: Seq<char>, i: int)
    requires
        0 <= i,
    ensures
        forall|a: int|
            0 <= a < spec_unmatched_from(s, i).len() ==> i <= #[trigger] spec_unmatched_from(
                s,
                i,
            )[a] < s.len(),
        forall|a: int, b: int|
            0 <= a < b < spec_unmatched_from(s, i).len() ==> #[trigger] spec_unmatched_from(
                s,
                i,
            )[a] < #[trigger] spec_unmatched_from(s, i)[b],
    decreases s.len() - i,
{
    if i < s.len() {
        let u = spec_unmatched_from(s, i);
        if spec_tok3_at(s, i) {
            lemma_unmatched_sorted(s, i + 3);
            let r = spec_unmatched_from(s, i + 3);
            if spec_token_index(s, i, 3) >= 0 {
                assert(u =~= r);
            } else {
                assert(u =~= seq![i, i + 1, i + 2] + r);
                assert forall|a: int| 0 <= a < u.len() implies i <= #[trigger] u[a] < s.len() by {
                    if a >= 3 {
                        assert(u[a] == r[a - 3]);
                    }
                }
                assert forall|a: int, b: int|
                    0 <= a < b < u.len() implies #[trigger] u[a] < #[trigger] u[b] by {
                    if a >= 3 {
                        assert(u[a] == r[a - 3] && u[b] == r[b - 3]);
                    } else if b >= 3 {
                        assert(u[b] == r[b - 3]);
                        assert(u[b] >= i + 3);
                    }
                }
            }
        } else if spec_tok2_at(s, i) {
            lemma_unmatched_sorted(s, i + 2);
            assert(u =~= spec_unmatched_from(s, i + 2));
        } else {
            lemma_unmatched_sorted(s, i + 1);
            let r = spec_unmatched_from(s, i + 1);
            assert(u =~= seq![i] + r);
            assert forall|a: int| 0 <= a < u.len() implies i <= #[trigger] u[a] < s.len() by {
                if a >= 1 {
                    assert(u[a] == r[a - 1]);
                }
            }
            assert forall|a: int, b: int|
                0 <= a < b < u.len() implies #[trigger] u[a] < #[trigger] u[b] by {
                if a >= 1 {
                    assert(u[a] == r[a - 1] && u[b] == r[b - 1]);
                } else {
                    assert(u[b] == r[b - 1]);
                    assert(u[b] >= i + 1);
                }
            }
        }
    }
}

fn is_letter_char(c: char) -> (r: bool)
    ensures
        r == spec_is_letter(c),
{
    ('A' <= c && c <= 'G') || ('a' <= c && c <= 'g')
}

fn is_accidental_char(c: char) -> (r: bool)
    ensures
        r == spec_is_accidental(c),
{
    c == '#' || c == '♯' || c == 'b' || c == 'B' || c == '♭' || c == '|'
}

fn is_digit_char(c: char) -> (r: bool)
    ensures
        r == spec_is_digit(c),
{
    '0' <= c && c <= '9'
}

fn letter_semitone(c: char) -> (r: u8)
    requires
        spec_is_letter(c),
    ensures
        r == spec_letter_semitone(c),
{
    if c == 'a' || c == 'A' {
        9
    } else if c == 'b' || c == 'B' {
        11
    } else if c == 'c' || c == 'C' {
        0
    } else if c == 'd' || c == 'D' {
        2
    } else if c == 'e' || c == 'E' {
        4
    } else if c == 'f' || c == 'F' {
        5
    } else {
        proof {
            assert(spec_lower(c) == 'g');
        }
        7
    }
}

/// Scans a cleaned line: the pitches its tokens name, in order, and every
/// position not covered by a valid token, ascending.
fn scan_line(s: &Vec<char>) -> (r: (Vec<Pitch>, Vec<usize>))
    ensures
        r.0@.map_values(|p: Pitch| p.as_index() as int) == spec_pitch_indices_from(s@, 0),
        r.1@.map_values(|u: usize| u as int) == spec_unmatched_from(s@, 0),
{
    let n = s.len();
    let mut pitches: Vec<Pitch> = Vec::new();
    let mut unmatched: Vec<usize> = Vec::new();
    let mut pos: usize = 0;
    while pos < n
        invariant
            pos <= n,
            n == s@.len(),
            pitches@.map_values(|p: Pitch| p.as_index() as int) + spec_pitch_indices_from(
                s@,
                pos as int,
            ) =~= spec_pitch_indices_from(s@, 0),
            unmatched@.map_values(|u: usize| u as int) + spec_unmatched_from(s@, pos as int)
                =~= spec_unmatched_from(s@, 0),
        decreases n - pos,
    {
        let ghost ppre = pitches@.map_values(|p: Pitch| p.as_index() as int);
        let ghost upre = unmatched@.map_values(|u: usize| u as int);
        let tok3 = n - pos >= 3 && is_letter_char(s[pos]) && is_accidental_char(s[pos + 1])
            && is_digit_char(s[pos + 2]);
        let tok2 = !tok3 && n - pos >= 2 && is_letter_char(s[pos]) && is_digit_char(s[pos + 1]);
        if tok3 {
            proof {
                assert(spec_tok3_at(s@, pos as int));
            }
            let a = s[pos + 1];
            let off: i8 = if a == '#' || a == '♯' {
                1
            } else if a == 'b' || a == 'B' || a == '♭' {
                -1
            } else {
                -100
            };
            let semi: i16 = letter_semitone(s[pos]) as i16 + off as i16;
            if semi == 1 || semi == 3 || semi == 6 || semi == 8 || semi == 10 {
                let digit = (s[pos + 2] as u32 - '0' as u32) as u8;
                let idx: u8 = digit * 12 + semi as u8;
                proof {
                    assert(idx == spec_token_index(s@, pos as int, 3));
                }
                match Pitch::from_index(idx) {
                    Some(p) => {
                        pitches.push(p);
                        proof {
                            assert(pitches@.map_values(|p2: Pitch| p2.as_index() as int)
                                =~= ppre.push(spec_token_index(s@, pos as int, 3)));
                        }
                    },
                    None => {
                        proof {
                            assert(false);
                        }
                    },
                }
            } else {
                unmatched.push(pos);
                unmatched.push(pos + 1);
                unmatched.push(pos + 2);
                proof {
                    assert(spec_token_index(s@, pos as int, 3) == -1);
                    assert(unmatched@.map_values(|u: usize| u as int) =~= upre + seq![
                        pos as int,
                        pos as int + 1,
                        pos as int + 2,
                    ]);
                }
            }
            pos = pos + 3;
        } else if tok2 {
            proof {
                assert(spec_tok2_at(s@, pos as int));
                assert(!spec_tok3_at(s@, pos as int));
            }
            let digit = (s[pos + 1] as u32 - '0' as u32) as u8;
            let semi = letter_semitone(s[pos]);
            let idx: u8 = digit * 12 + semi;
            proof {
                assert(idx == spec_token_index(s@, pos as int, 2));
            }
            match Pitch::from_index(idx) {
                Some(p) => {
                    pitches.push(p);
                    proof {
                        assert(pitches@.map_values(|p2: Pitch| p2.as_index() as int) =~= ppre.push(
                            spec_token_index(s@, pos as int, 2),
                        ));
                    }
                },
                None => {
                    proof {
                        assert(false);
                    }
                },
            }
            pos = pos + 2;
        } else {
            proof {
                assert(!spec_tok3_at(s@, pos as int));
                assert(!spec_tok2_at(s@, pos as int));
            }
            unmatched.push(pos);
            proof {
                assert(unmatched@.map_values(|u: usize| u as int) =~= upre.push(pos as int));
            }
            pos = pos + 1;
        }
    }
    proof {
        assert(spec_pitch_indices_from(s@, pos as int) =~= Seq::<int>::empty());
        assert(spec_unmatched_from(s@, pos as int) =~= Seq::<int>::empty());
        assert(pitches@.map_values(|p: Pitch| p.as_index() as int) =~= spec_pitch_indices_from(
            s@,
            0,
        ));
        assert(unmatched@.map_values(|u: usize| u as int) =~= spec_unmatched_from(s@, 0));
    }
    (pitches, unmatched)
}


/// The index at which the consecutive run starting at `i` ends.
pub open spec fn spec_run_end(xs: Seq<usize>, i: int) -> int
    decreases xs.len() - i,
{
    if i < 0 || i + 1 >= xs.len() {
        i
    } else if xs[i + 1] == xs[i] + 1 {
        spec_run_end(xs, i + 1)
    } else {
        i
    }
}

/// The maximal consecutive runs of the list, as index ranges `(first, last)`.
pub open spec fn spec_runs_from(xs: Seq<usize>, i: int) -> Seq<(int, int)>
    decreases xs.len() - i,
{
    if i < 0 || i >= xs.len() {
        Seq::empty()
    } else {
        let e0 = spec_run_end(xs, i);
        let e = if e0 < i {
            i
        } else if e0 >= xs.len() {
            xs.len() - 1
        } else {
            e0
        };
        seq![(i, e)] + spec_runs_from(xs, e + 1)
    }
}

proof fn lemma_run_end_bounds(xs: Seq<usize>, i: int)
    requires
        0 <= i < xs.len(),
    ensures
        i <= spec_run_end(xs, i) < xs.len(),
    decreases xs.len() - i,
{
    if i + 1 < xs.len() && xs[i + 1] == xs[i] + 1 {
        lemma_run_end_bounds(xs, i + 1);
    }
}

proof fn lemma_run_end_char(xs: Seq<usize>, i: int, j: int)
    requires
        0 <= i <= j < xs.len(),
        forall|t: int| i <= t < j ==> #[trigger] xs[t + 1] == xs[t] + 1,
        j + 1 < xs.len() ==> xs[j + 1] != xs[j] + 1,
    ensures
        spec_run_end(xs, i) == j,
    decreases xs.len() - i,
{
    if i < j {
        lemma_run_end_char(xs, i + 1, j);
    }
}

/// Splits a list of numbers into its maximal runs of consecutive values,
/// preserving order.
pub fn consecutive_slices(numbers: &Vec<usize>) -> (r: Vec<Vec<usize>>)
    ensures
        r@.len() == spec_runs_from(numbers@, 0).len(),
        forall|k: int|
            0 <= k < r@.len() ==> (#[trigger] r@[k])@ == numbers@.subrange(
                spec_runs_from(numbers@, 0)[k].0,
                spec_runs_from(numbers@, 0)[k].1 + 1,
            ),
{
    let n = numbers.len();
    let mut out: Vec<Vec<usize>> = Vec::new();
    let mut pos: usize = 0;
    while pos < n
        invariant
            pos <= n,
            n == numbers@.len(),
            out@.len() + spec_runs_from(numbers@, pos as int).len() == spec_runs_from(
                numbers@,
                0,
            ).len(),
            forall|k: int|
                0 <= k < out@.len() ==> (#[trigger] out@[k])@ == numbers@.subrange(
                    spec_runs_from(numbers@, 0)[k].0,
                    spec_runs_from(numbers@, 0)[k].1 + 1,
                ),
            spec_runs_from(numbers@, 0) =~= spec_runs_from(numbers@, 0).subrange(
                0,
                out@.len() as int,
            ) + spec_runs_from(numbers@, pos as int),
        decreases n - pos,
    {
        let ghost k0 = out@.len() as int;
        let mut j: usize = pos;
        while j < n && j + 1 < n && numbers[j + 1] > numbers[j] && numbers[j + 1] - numbers[j]
            == 1
            invariant
                pos <= j <= n,
                j < n,
                n == numbers@.len(),
                forall|t: int| pos <= t < j ==> #[trigger] numbers@[t + 1] == numbers@[t] + 1,
            decreases n - j,
        {
            proof {
                assert(numbers@[j as int] + 1 <= usize::MAX);
            }
            j += 1;
        }
        proof {
            lemma_run_end_char(numbers@, pos as int, j as int);
        }
        let mut group: Vec<usize> = Vec::new();
        let mut t: usize = pos;
        while t <= j
            invariant
                pos <= t <= j + 1,
                j < n,
                n == numbers@.len(),
                group@ == numbers@.subrange(pos as int, t as int),
            decreases j + 1 - t,
        {
            group.push(numbers[t]);
            proof {
                assert(numbers@.subrange(pos as int, (t + 1) as int) =~= numbers@.subrange(
                    pos as int,
                    t as int,
                ).push(numbers@[t as int]));
            }
            t += 1;
        }
        out.push(group);
        proof {
            assert(spec_runs_from(numbers@, pos as int) == seq![(pos as int, j as int)]
                + spec_runs_from(numbers@, (j + 1) as int));
            assert(spec_runs_from(numbers@, 0)[k0] == (pos as int, j as int));
            assert(spec_runs_from(numbers@, 0) =~= spec_runs_from(numbers@, 0).subrange(
                0,
                out@.len() as int,
            ) + spec_runs_from(numbers@, (j + 1) as int));
        }
        pos = j + 1;
    }
    proof {
        assert(spec_runs_from(numbers@, pos as int) =~= Seq::<(int, int)>::empty());
    }
    out
}

/// Why an input text was rejected: one line of explanation per stretch of
/// characters that could not be read as pitches.
#[derive(Debug, Clone, PartialEq, Eq)]
pub struct ParseError {
    message: String,
}

impl ParseError {
    /// The content of the diagnostic.
    pub closed spec fn spec_message(self) -> Seq<char> {
        self.message@
    }

    pub fn message(&self) -> (r: String)
        ensures
            r@ == self.spec_message(),
    {
        self.message.clone()
    }
}

/// The diagnostic for one run of unreadable characters.
pub open spec fn spec_run_message(s: Seq<char>, xs: Seq<usize>, run: (int, int), ln: int) -> Seq<
    char,
> {
    "Input '"@ + s.subrange(xs[run.0] as int, xs[run.1] as int + 1) + "' on line "@ + spec_udec(ln)
        + " could not be parsed into a pitch."@
}

/// The joined diagnostics for every run of unreadable characters of one line.
pub open spec fn spec_join_run_messages(
    s: Seq<char>,
    xs: Seq<usize>,
    runs: Seq<(int, int)>,
    ln: int,
) -> Seq<char>
    decreases runs.len(),
{
    if runs.len() == 0 {
        Seq::empty()
    } else if runs.len() == 1 {
        spec_run_message(s, xs, runs[0], ln)
    } else {
        spec_join_run_messages(s, xs, runs.drop_last(), ln) + seq!['\n'] + spec_run_message(
            s,
            xs,
            runs.last(),
            ln,
        )
    }
}

/// The full diagnostic of one cleaned line that failed to parse.
pub open spec fn spec_line_error_message(cleaned: Seq<char>, ln: int) -> Seq<char> {
    spec_join_run_messages(
        cleaned,
        spec_unmatched_from(cleaned, 0).map_values(|v: int| v as usize),
        spec_runs_from(spec_unmatched_from(cleaned, 0).map_values(|v: int| v as usize), 0),
        ln,
    )
}



/// A cleaned line is no longer than the raw line.
pub proof fn lemma_clean_len_le(l: Seq<char>)
    ensures
        spec_clean(l).len() <= l.len(),
{
    lemma_find_comment_ge(l, 0);
    lemma_remove_ws_len_le(spec_remove_comments(l));
}

proof fn lemma_remove_ws_len_le(s: Seq<char>)
    ensures
        spec_remove_whitespace(s).len() <= s.len(),
    decreases s.len(),
{
    if s.len() > 0 {
        lemma_remove_ws_len_le(s.drop_last());
    }
}

/// No more pitches are read from a line than it has characters.
pub proof fn lemma_pitch_indices_len_le(s: Seq<char>, i: int)
    requires
        0 <= i,
    ensures
        spec_pitch_indices_from(s, i).len() <= s.len() - i || spec_pitch_indices_from(
            s,
            i,
        ).len() == 0,
    decreases s.len() - i,
{
    if i < s.len() {
        if spec_tok3_at(s, i) {
            lemma_pitch_indices_len_le(s, i + 3);
        } else if spec_tok2_at(s, i) {
            lemma_pitch_indices_len_le(s, i + 2);
        } else {
            lemma_pitch_indices_len_le(s, i + 1);
        }
    }
}

/// A non-empty line with every character covered by valid tokens reads at least
/// one pitch.
pub proof fn lemma_pitch_indices_nonempty(s: Seq<char>)
    requires
        s.len() > 0,
        spec_unmatched_from(s, 0).len() == 0,
    ensures
        spec_pitch_indices_from(s, 0).len() > 0,
{
}

/// Every split line is no longer than the whole input.
pub proof fn lemma_lines_len_le(s: Seq<char>, i: int)
    requires
        0 <= i,
    ensures
        forall|t: int|
            0 <= t < spec_lines_from(s, i).len() ==> (#[trigger] spec_lines_from(s, i)[t]).len()
                <= s.len(),
    decreases s.len() - i,
{
    if i < s.len() {
        let j0 = spec_find_newline(s, i);
        let j = if j0 < i {
            i
        } else {
            j0
        };
        lemma_find_newline_ge(s, i);
        if j < s.len() {
            lemma_lines_len_le(s, j + 1);
            let whole = spec_lines_from(s, i);
            let rest = spec_lines_from(s, j + 1);
            assert forall|t: int|
                0 <= t < whole.len() implies (#[trigger] whole[t]).len() <= s.len() by {
                if t > 0 {
                    assert(whole[t] == rest[t - 1]);
                }
            }
        }
    }
}

/// Whether a raw line fails to parse: its cleaned content is neither empty nor a
/// measure break, and some of it is not covered by valid pitch tokens.
pub open spec fn spec_line_fails(l: Seq<char>) -> bool {
    let c = spec_clean(l);
    c.len() != 0 && !spec_is_measure_break(c) && spec_unmatched_from(c, 0).len() != 0
}

/// What a successfully parsed line holds: a rest for an empty line, a measure
/// break for a dash line, and otherwise the pitches its tokens name, in order.
pub open spec fn spec_parsed_line_ok(l: Seq<char>, out: Line<Vec<Pitch>>) -> bool {
    let c = spec_clean(l);
    if c.len() == 0 {
        out == Line::<Vec<Pitch>>::Rest
    } else if spec_is_measure_break(c) {
        out == Line::<Vec<Pitch>>::MeasureBreak
    } else {
        out matches Line::Playable(ps) && ps@.map_values(|p: Pitch| p.as_index() as int)
            == spec_pitch_indices_from(c, 0)
    }
}

/// Parses one raw input line: comments and whitespace are stripped, an empty rest
/// or a dash measure break is recognized, and anything else must be a sequence of
/// pitch names. Unreadable stretches are reported together with the 1-based line
/// number.
pub fn parse_line(input_index: usize, input_line: &Vec<char>) -> (r: Result<
    Line<Vec<Pitch>>,
    ParseError,
>)
    requires
        input_index < usize::MAX,
    ensures
        r is Err <==> spec_line_fails(input_line@),
        r matches Ok(l) ==> spec_parsed_line_ok(input_line@, l),
        r matches Err(e) ==> e.spec_message() == spec_line_error_message(
            spec_clean(input_line@),
            input_index + 1,
        ),
{
    let cleaned = remove_whitespace(&remove_comments(input_line));
    let ghost c = spec_clean(input_line@);
    proof {
        assert(cleaned@ == c);
    }
    match parse_rest(&cleaned) {
        Some(rest) => {
            return Ok(rest);
        },
        None => {},
    }
    match parse_measure_break(&cleaned) {
        Some(mb) => {
            return Ok(mb);
        },
        None => {},
    }
    let (pitches, unmatched) = scan_line(&cleaned);
    if unmatched.len() == 0 {
        proof {
            assert(spec_unmatched_from(c, 0).len() == 0);
        }
        return Ok(Line::Playable(pitches));
    }
    proof {
        lemma_unmatched_sorted(c, 0);
        assert(unmatched@ =~= spec_unmatched_from(c, 0).map_values(|v: int| v as usize));
    }
    let ghost xs = spec_unmatched_from(c, 0).map_values(|v: int| v as usize);
    let groups = consecutive_slices(&unmatched);
    let ghost runs = spec_runs_from(xs, 0);
    proof {
        assert forall|a: int| 0 <= a < xs.len() implies #[trigger] xs[a] < c.len() by {
            assert(xs[a] == spec_unmatched_from(c, 0)[a] as usize);
        }
        assert forall|a: int, b: int|
            0 <= a < b < xs.len() implies #[trigger] xs[a] < #[trigger] xs[b] by {
            assert(xs[a] == spec_unmatched_from(c, 0)[a] as usize);
            assert(xs[b] == spec_unmatched_from(c, 0)[b] as usize);
        }
    }
    let line_number = input_index + 1;
    let clen = cleaned.len();
    let mut msg = String::new();
    let mut g: usize = 0;
    while g < groups.len()
        invariant
            g <= groups@.len(),
            c == spec_clean(input_line@),
            cleaned@ == c,
            clen == c.len(),
            xs == spec_unmatched_from(c, 0).map_values(|v: int| v as usize),
            unmatched@ == xs,
            runs == spec_runs_from(xs, 0),
            line_number == input_index + 1,
            groups@.len() == runs.len(),
            forall|k: int|
                0 <= k < groups@.len() ==> (#[trigger] groups@[k])@ == xs.subrange(
                    runs[k].0,
                    runs[k].1 + 1,
                ),
            forall|a: int| 0 <= a < xs.len() ==> #[trigger] xs[a] < c.len(),
            forall|a: int, b: int|
                0 <= a < b < xs.len() ==> #[trigger] xs[a] < #[trigger] xs[b],
            msg@ == spec_join_run_messages(c, xs, runs.subrange(0, g as int), line_number as int),
        decreases groups@.len() - g,
    {
        let group = &groups[g];
        proof {
            assert(group@ == xs.subrange(runs[g as int].0, runs[g as int].1 + 1));
            assert(0 <= runs[g as int].0 <= runs[g as int].1 < xs.len()) by {
                lemma_runs_bounds(xs, 0);
            }
            assert(group@.len() > 0);
            assert(group@[0] == xs[runs[g as int].0]);
            assert(group@[group@.len() - 1] == xs[runs[g as int].1]);
        }
        let first_idx = group[0];
        let last_idx = group[group.len() - 1];
        proof {
            assert(first_idx < c.len());
            assert(last_idx < c.len());
            assert(first_idx <= last_idx);
        }
        let mut piece: Vec<char> = Vec::new();
        let mut t: usize = first_idx;
        proof {
            assert(piece@ =~= c.subrange(first_idx as int, first_idx as int));
        }
        while t <= last_idx
            invariant
                first_idx <= t <= last_idx + 1,
                last_idx < clen,
                clen == c.len(),
                cleaned@ == c,
                piece@ == c.subrange(first_idx as int, t as int),
            decreases last_idx + 1 - t,
        {
            piece.push(cleaned[t]);
            proof {
                assert(c.subrange(first_idx as int, (t + 1) as int) =~= c.subrange(
                    first_idx as int,
                    t as int,
                ).push(c[t as int]));
            }
            t += 1;
        }
        if g > 0 {
            msg.append("\n");
        }
        msg.append("Input '");
        msg.append(string_of_chars(&piece).as_str());
        msg.append("' on line ");
        msg.append(usize_to_string(line_number).as_str());
        msg.append(" could not be parsed into a pitch.");
        proof {
            reveal_strlit("\n");
            assert("\n"@ =~= seq!['\n']);
            let pre = runs.subrange(0, g as int);
            let cur = runs.subrange(0, (g + 1) as int);
            assert(cur.drop_last() =~= pre);
            assert(cur.last() == runs[g as int]);
            assert(msg@ =~= spec_join_run_messages(c, xs, cur, line_number as int));
        }
        g += 1;
    }
    proof {
        assert(runs.subrange(0, runs.len() as int) =~= runs);
    }
    Err(ParseError { message: msg })
}

/// Every run lies within the index list.
proof fn lemma_runs_bounds(xs: Seq<usize>, i: int)
    requires
        0 <= i,
    ensures
        forall|k: int|
            0 <= k < spec_runs_from(xs, i).len() ==> i <= (#[trigger] spec_runs_from(xs, i)[k]).0
                <= spec_runs_from(xs, i)[k].1 < xs.len(),
    decreases xs.len() - i,
{
    if i < xs.len() {
        lemma_run_end_bounds(xs, i);
        let e = spec_run_end(xs, i);
        lemma_runs_bounds(xs, e + 1);
        let whole = spec_runs_from(xs, i);
        let rest = spec_runs_from(xs, e + 1);
        assert forall|k: int|
            0 <= k < whole.len() implies i <= (#[trigger] whole[k]).0 <= whole[k].1
            < xs.len() by {
            if k > 0 {
                assert(whole[k] == rest[k - 1]);
            }
        }
    }
}

/// Whether any line of the split input fails to parse.
pub open spec fn spec_any_line_fails(ls: Seq<Seq<char>>) -> bool {
    exists|i: int| 0 <= i < ls.len() && spec_line_fails(#[trigger] ls[i])
}

/// The joined diagnostics of every failing line, in input order.
pub open spec fn spec_parse_errors_text(ls: Seq<Seq<char>>) -> Seq<char>
    decreases ls.len(),
{
    if ls.len() == 0 {
        Seq::empty()
    } else {
        let prev = spec_parse_errors_text(ls.drop_last());
        let cur = if spec_line_fails(ls.last()) {
            spec_line_error_message(spec_clean(ls.last()), ls.len() as int)
        } else {
            Seq::<char>::empty()
        };
        if spec_any_line_fails(ls.drop_last()) && spec_line_fails(ls.last()) {
            prev + seq!['\n'] + cur
        } else {
            prev + cur
        }
    }
}

/// Parses a whole input text into beats, one line each. Every line is examined
/// before reporting: the diagnostics of all failing lines come back together.
pub fn parse_lines(input: String) -> (r: Result<Vec<Line<Vec<Pitch>>>, ParseError>)
    ensures
        r is Ok <==> !spec_any_line_fails(spec_lines_from(input@, 0)),
        r matches Ok(v) ==> v@.len() == spec_lines_from(input@, 0).len() && (forall|i: int|
            0 <= i < v@.len() ==> spec_parsed_line_ok(
                spec_lines_from(input@, 0)[i],
                #[trigger] v@[i],
            )),
        r matches Err(e) ==> e.spec_message() == spec_parse_errors_text(
            spec_lines_from(input@, 0),
        ),
{
    let raw_lines = split_input_lines(input.as_str());
    let ghost ls = spec_lines_from(input@, 0);
    let mut parsed: Vec<Line<Vec<Pitch>>> = Vec::new();
    let mut err_text = String::new();
    let mut failed = false;
    let mut i: usize = 0;
    while i < raw_lines.len()
        invariant
            i <= raw_lines@.len(),
            raw_lines@.map_values(|v: Vec<char>| v@) == ls,
            failed == spec_any_line_fails(ls.subrange(0, i as int)),
            !failed ==> parsed@.len() == i && (forall|t: int|
                0 <= t < i ==> spec_parsed_line_ok(ls[t], #[trigger] parsed@[t])),
            err_text@ == spec_parse_errors_text(ls.subrange(0, i as int)),
        decreases raw_lines@.len() - i,
    {
        let ghost pre = ls.subrange(0, i as int);
        let ghost cur = ls.subrange(0, (i + 1) as int);
        proof {
            assert(cur.drop_last() =~= pre);
            assert(cur.last() == ls[i as int]);
            assert(raw_lines@[i as int]@ == ls[i as int]);
        }
        match parse_line(i, &raw_lines[i]) {
            Ok(line) => {
                parsed.push(line);
                proof {
                    if spec_any_line_fails(cur) {
                        let w = choose|w: int| 0 <= w < cur.len() && spec_line_fails(cur[w]);
                        assert(pre[w] == cur[w] || w == i);
                        assert(spec_any_line_fails(pre) || spec_line_fails(ls[i as int]));
                    }
                    if spec_any_line_fails(pre) {
                        let w = choose|w: int| 0 <= w < pre.len() && spec_line_fails(pre[w]);
                        assert(cur[w] == pre[w]);
                        assert(spec_any_line_fails(cur));
                    }
                    assert(err_text@ =~= spec_parse_errors_text(cur));
                }
            },
            Err(e) => {
                if failed {
                    err_text.append("\n");
                }
                err_text.append(e.message().as_str());
                proof {
                    reveal_strlit("\n");
                    assert("\n"@ =~= seq!['\n']);
                    assert(spec_line_fails(cur.last()));
                    assert(spec_any_line_fails(cur)) by {
                        assert(0 <= i < cur.len() && spec_line_fails(cur[i as int]));
                    }
                    if spec_any_line_fails(pre) {
                        let w = choose|w: int| 0 <= w < pre.len() && spec_line_fails(pre[w]);
                        assert(cur[w] == pre[w]);
                    }
                    assert(err_text@ =~= spec_parse_errors_text(cur));
                }
                failed = true;
            },
        }
        i += 1;
    }
    proof {
        assert(ls.subrange(0, ls.len() as int) =~= ls);
    }
    if failed {
        Err(ParseError { message: err_text })
    } else {
        Ok(parsed)
    }
}

} // verus!
