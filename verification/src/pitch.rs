use vstd::prelude::*;

verus! {

/// A discrete tone, from C0 (index 0) up to B9 (index 119), one variant per semitone.
/// Sharp/flat pairs share a variant, since they name the same tone.
#[derive(Debug, Clone, Copy, PartialEq, Eq, Hash, Structural)]
pub enum Pitch {
    C0,
    CSharpDFlat0,
    D0,
    DSharpEFlat0,
    E0,
    F0,
    FSharpGFlat0,
    G0,
    GSharpAFlat0,
    A0,
    ASharpBFlat0,
    B0,
    C1,
    CSharpDFlat1,
    D1,
    DSharpEFlat1,
    E1,
    F1,
    FSharpGFlat1,
    G1,
    GSharpAFlat1,
    A1,
    ASharpBFlat1,
    B1,
    C2,
    CSharpDFlat2,
    D2,
    DSharpEFlat2,
    E2,
    F2,
    FSharpGFlat2,
    G2,
    GSharpAFlat2,
    A2,
    ASharpBFlat2,
    B2,
    C3,
    CSharpDFlat3,
    D3,
    DSharpEFlat3,
    E3,
    F3,
    FSharpGFlat3,
    G3,
    GSharpAFlat3,
    A3,
    ASharpBFlat3,
    B3,
    C4,
    CSharpDFlat4,
    D4,
    DSharpEFlat4,
    E4,
    F4,
    FSharpGFlat4,
    G4,
    GSharpAFlat4,
    A4,
    ASharpBFlat4,
    B4,
    C5,
    CSharpDFlat5,
    D5,
    DSharpEFlat5,
    E5,
    F5,
    FSharpGFlat5,
    G5,
    GSharpAFlat5,
    A5,
    ASharpBFlat5,
    B5,
    C6,
    CSharpDFlat6,
    D6,
    DSharpEFlat6,
    E6,
    F6,
    FSharpGFlat6,
    G6,
    GSharpAFlat6,
    A6,
    ASharpBFlat6,
    B6,
    C7,
    CSharpDFlat7,
    D7,
    DSharpEFlat7,
    E7,
    F7,
    FSharpGFlat7,
    G7,
    GSharpAFlat7,
    A7,
    ASharpBFlat7,
    B7,
    C8,
    CSharpDFlat8,
    D8,
    DSharpEFlat8,
    E8,
    F8,
    FSharpGFlat8,
    G8,
    GSharpAFlat8,
    A8,
    ASharpBFlat8,
    B8,
    C9,
    CSharpDFlat9,
    D9,
    DSharpEFlat9,
    E9,
    F9,
    FSharpGFlat9,
    G9,
    GSharpAFlat9,
    A9,
    ASharpBFlat9,
    B9,
}

impl Pitch {
    /// The semitone index of this pitch: C0 is 0 and each variant is one above the last.
    pub open spec fn as_index(self) -> u8 {
        match self {
            Pitch::C0 => 0,
            Pitch::CSharpDFlat0 => 1,
            Pitch::D0 => 2,
            Pitch::DSharpEFlat0 => 3,
            Pitch::E0 => 4,
            Pitch::F0 => 5,
            Pitch::FSharpGFlat0 => 6,
            Pitch::G0 => 7,
            Pitch::GSharpAFlat0 => 8,
            Pitch::A0 => 9,
            Pitch::ASharpBFlat0 => 10,
            Pitch::B0 => 11,
            Pitch::C1 => 12,
            Pitch::CSharpDFlat1 => 13,
            Pitch::D1 => 14,
            Pitch::DSharpEFlat1 => 15,
            Pitch::E1 => 16,
            Pitch::F1 => 17,
            Pitch::FSharpGFlat1 => 18,
            Pitch::G1 => 19,
            Pitch::GSharpAFlat1 => 20,
            Pitch::A1 => 21,
            Pitch::ASharpBFlat1 => 22,
            Pitch::B1 => 23,
            Pitch::C2 => 24,
            Pitch::CSharpDFlat2 => 25,
            Pitch::D2 => 26,
            Pitch::DSharpEFlat2 => 27,
            Pitch::E2 => 28,
            Pitch::F2 => 29,
            Pitch::FSharpGFlat2 => 30,
            Pitch::G2 => 31,
            Pitch::GSharpAFlat2 => 32,
            Pitch::A2 => 33,
            Pitch::ASharpBFlat2 => 34,
            Pitch::B2 => 35,
            Pitch::C3 => 36,
            Pitch::CSharpDFlat3 => 37,
            Pitch::D3 => 38,
            Pitch::DSharpEFlat3 => 39,
            Pitch::E3 => 40,
            Pitch::F3 => 41,
            Pitch::FSharpGFlat3 => 42,
            Pitch::G3 => 43,
            Pitch::GSharpAFlat3 => 44,
            Pitch::A3 => 45,
            Pitch::ASharpBFlat3 => 46,
            Pitch::B3 => 47,
            Pitch::C4 => 48,
            Pitch::CSharpDFlat4 => 49,
            Pitch::D4 => 50,
            Pitch::DSharpEFlat4 => 51,
            Pitch::E4 => 52,
            Pitch::F4 => 53,
            Pitch::FSharpGFlat4 => 54,
            Pitch::G4 => 55,
            Pitch::GSharpAFlat4 => 56,
            Pitch::A4 => 57,
            Pitch::ASharpBFlat4 => 58,
            Pitch::B4 => 59,
            Pitch::C5 => 60,
            Pitch::CSharpDFlat5 => 61,
            Pitch::D5 => 62,
            Pitch::DSharpEFlat5 => 63,
            Pitch::E5 => 64,
            Pitch::F5 => 65,
            Pitch::FSharpGFlat5 => 66,
            Pitch::G5 => 67,
            Pitch::GSharpAFlat5 => 68,
            Pitch::A5 => 69,
            Pitch::ASharpBFlat5 => 70,
            Pitch::B5 => 71,
            Pitch::C6 => 72,
            Pitch::CSharpDFlat6 => 73,
            Pitch::D6 => 74,
            Pitch::DSharpEFlat6 => 75,
            Pitch::E6 => 76,
            Pitch::F6 => 77,
            Pitch::FSharpGFlat6 => 78,
            Pitch::G6 => 79,
            Pitch::GSharpAFlat6 => 80,
            Pitch::A6 => 81,
            Pitch::ASharpBFlat6 => 82,
            Pitch::B6 => 83,
            Pitch::C7 => 84,
            Pitch::CSharpDFlat7 => 85,
            Pitch::D7 => 86,
            Pitch::DSharpEFlat7 => 87,
            Pitch::E7 => 88,
            Pitch::F7 => 89,
            Pitch::FSharpGFlat7 => 90,
            Pitch::G7 => 91,
            Pitch::GSharpAFlat7 => 92,
            Pitch::A7 => 93,
            Pitch::ASharpBFlat7 => 94,
            Pitch::B7 => 95,
            Pitch::C8 => 96,
            Pitch::CSharpDFlat8 => 97,
            Pitch::D8 => 98,
            Pitch::DSharpEFlat8 => 99,
            Pitch::E8 => 100,
            Pitch::F8 => 101,
            Pitch::FSharpGFlat8 => 102,
            Pitch::G8 => 103,
            Pitch::GSharpAFlat8 => 104,
            Pitch::A8 => 105,
            Pitch::ASharpBFlat8 => 106,
            Pitch::B8 => 107,
            Pitch::C9 => 108,
            Pitch::CSharpDFlat9 => 109,
            Pitch::D9 => 110,
            Pitch::DSharpEFlat9 => 111,
            Pitch::E9 => 112,
            Pitch::F9 => 113,
            Pitch::FSharpGFlat9 => 114,
            Pitch::G9 => 115,
            Pitch::GSharpAFlat9 => 116,
            Pitch::A9 => 117,
            Pitch::ASharpBFlat9 => 118,
            Pitch::B9 => 119,
        }
    }

    pub fn index(&self) -> (r: u8)
        ensures
            r == self.as_index(),
    {
        match self {
            Pitch::C0 => 0,
            Pitch::CSharpDFlat0 => 1,
            Pitch::D0 => 2,
            Pitch::DSharpEFlat0 => 3,
            Pitch::E0 => 4,
            Pitch::F0 => 5,
            Pitch::FSharpGFlat0 => 6,
            Pitch::G0 => 7,
            Pitch::GSharpAFlat0 => 8,
            Pitch::A0 => 9,
            Pitch::ASharpBFlat0 => 10,
            Pitch::B0 => 11,
            Pitch::C1 => 12,
            Pitch::CSharpDFlat1 => 13,
            Pitch::D1 => 14,
            Pitch::DSharpEFlat1 => 15,
            Pitch::E1 => 16,
            Pitch::F1 => 17,
            Pitch::FSharpGFlat1 => 18,
            Pitch::G1 => 19,
            Pitch::GSharpAFlat1 => 20,
            Pitch::A1 => 21,
            Pitch::ASharpBFlat1 => 22,
            Pitch::B1 => 23,
            Pitch::C2 => 24,
            Pitch::CSharpDFlat2 => 25,
            Pitch::D2 => 26,
            Pitch::DSharpEFlat2 => 27,
            Pitch::E2 => 28,
            Pitch::F2 => 29,
            Pitch::FSharpGFlat2 => 30,
            Pitch::G2 => 31,
            Pitch::GSharpAFlat2 => 32,
            Pitch::A2 => 33,
            Pitch::ASharpBFlat2 => 34,
            Pitch::B2 => 35,
            Pitch::C3 => 36,
            Pitch::CSharpDFlat3 => 37,
            Pitch::D3 => 38,
            Pitch::DSharpEFlat3 => 39,
            Pitch::E3 => 40,
            Pitch::F3 => 41,
            Pitch::FSharpGFlat3 => 42,
            Pitch::G3 => 43,
            Pitch::GSharpAFlat3 => 44,
            Pitch::A3 => 45,
            Pitch::ASharpBFlat3 => 46,
            Pitch::B3 => 47,
            Pitch::C4 => 48,
            Pitch::CSharpDFlat4 => 49,
            Pitch::D4 => 50,
            Pitch::DSharpEFlat4 => 51,
            Pitch::E4 => 52,
            Pitch::F4 => 53,
            Pitch::FSharpGFlat4 => 54,
            Pitch::G4 => 55,
            Pitch::GSharpAFlat4 => 56,
            Pitch::A4 => 57,
            Pitch::ASharpBFlat4 => 58,
            Pitch::B4 => 59,
            Pitch::C5 => 60,
            Pitch::CSharpDFlat5 => 61,
            Pitch::D5 => 62,
            Pitch::DSharpEFlat5 => 63,
            Pitch::E5 => 64,
            Pitch::F5 => 65,
            Pitch::FSharpGFlat5 => 66,
            Pitch::G5 => 67,
            Pitch::GSharpAFlat5 => 68,
            Pitch::A5 => 69,
            Pitch::ASharpBFlat5 => 70,
            Pitch::B5 => 71,
            Pitch::C6 => 72,
            Pitch::CSharpDFlat6 => 73,
            Pitch::D6 => 74,
            Pitch::DSharpEFlat6 => 75,
            Pitch::E6 => 76,
            Pitch::F6 => 77,
            Pitch::FSharpGFlat6 => 78,
            Pitch::G6 => 79,
            Pitch::GSharpAFlat6 => 80,
            Pitch::A6 => 81,
            Pitch::ASharpBFlat6 => 82,
            Pitch::B6 => 83,
            Pitch::C7 => 84,
            Pitch::CSharpDFlat7 => 85,
            Pitch::D7 => 86,
            Pitch::DSharpEFlat7 => 87,
            Pitch::E7 => 88,
            Pitch::F7 => 89,
            Pitch::FSharpGFlat7 => 90,
            Pitch::G7 => 91,
            Pitch::GSharpAFlat7 => 92,
            Pitch::A7 => 93,
            Pitch::ASharpBFlat7 => 94,
            Pitch::B7 => 95,
            Pitch::C8 => 96,
            Pitch::CSharpDFlat8 => 97,
            Pitch::D8 => 98,
            Pitch::DSharpEFlat8 => 99,
            Pitch::E8 => 100,
            Pitch::F8 => 101,
            Pitch::FSharpGFlat8 => 102,
            Pitch::G8 => 103,
            Pitch::GSharpAFlat8 => 104,
            Pitch::A8 => 105,
            Pitch::ASharpBFlat8 => 106,
            Pitch::B8 => 107,
            Pitch::C9 => 108,
            Pitch::CSharpDFlat9 => 109,
            Pitch::D9 => 110,
            Pitch::DSharpEFlat9 => 111,
            Pitch::E9 => 112,
            Pitch::F9 => 113,
            Pitch::FSharpGFlat9 => 114,
            Pitch::G9 => 115,
            Pitch::GSharpAFlat9 => 116,
            Pitch::A9 => 117,
            Pitch::ASharpBFlat9 => 118,
            Pitch::B9 => 119,
        }
    }

    /// The pitch with the given semitone index, if one exists.
    pub fn from_index(index: u8) -> (r: Option<Pitch>)
        ensures
            index <= 119 ==> (r matches Some(p) && p.as_index() == index),
            index > 119 ==> r is None,
    {
        match index {
            0 => Some(Pitch::C0),
            1 => Some(Pitch::CSharpDFlat0),
            2 => Some(Pitch::D0),
            3 => Some(Pitch::DSharpEFlat0),
            4 => Some(Pitch::E0),
            5 => Some(Pitch::F0),
            6 => Some(Pitch::FSharpGFlat0),
            7 => Some(Pitch::G0),
            8 => Some(Pitch::GSharpAFlat0),
            9 => Some(Pitch::A0),
            10 => Some(Pitch::ASharpBFlat0),
            11 => Some(Pitch::B0),
            12 => Some(Pitch::C1),
            13 => Some(Pitch::CSharpDFlat1),
            14 => Some(Pitch::D1),
            15 => Some(Pitch::DSharpEFlat1),
            16 => Some(Pitch::E1),
            17 => Some(Pitch::F1),
            18 => Some(Pitch::FSharpGFlat1),
            19 => Some(Pitch::G1),
            20 => Some(Pitch::GSharpAFlat1),
            21 => Some(Pitch::A1),
            22 => Some(Pitch::ASharpBFlat1),
            23 => Some(Pitch::B1),
            24 => Some(Pitch::C2),
            25 => Some(Pitch::CSharpDFlat2),
            26 => Some(Pitch::D2),
            27 => Some(Pitch::DSharpEFlat2),
            28 => Some(Pitch::E2),
            29 => Some(Pitch::F2),
            30 => Some(Pitch::FSharpGFlat2),
            31 => Some(Pitch::G2),
            32 => Some(Pitch::GSharpAFlat2),
            33 => Some(Pitch::A2),
            34 => Some(Pitch::ASharpBFlat2),
            35 => Some(Pitch::B2),
            36 => Some(Pitch::C3),
            37 => Some(Pitch::CSharpDFlat3),
            38 => Some(Pitch::D3),
            39 => Some(Pitch::DSharpEFlat3),
            40 => Some(Pitch::E3),
            41 => Some(Pitch::F3),
            42 => Some(Pitch::FSharpGFlat3),
            43 => Some(Pitch::G3),
            44 => Some(Pitch::GSharpAFlat3),
            45 => Some(Pitch::A3),
            46 => Some(Pitch::ASharpBFlat3),
            47 => Some(Pitch::B3),
            48 => Some(Pitch::C4),
            49 => Some(Pitch::CSharpDFlat4),
            50 => Some(Pitch::D4),
            51 => Some(Pitch::DSharpEFlat4),
            52 => Some(Pitch::E4),
            53 => Some(Pitch::F4),
            54 => Some(Pitch::FSharpGFlat4),
            55 => Some(Pitch::G4),
            56 => Some(Pitch::GSharpAFlat4),
            57 => Some(Pitch::A4),
            58 => Some(Pitch::ASharpBFlat4),
            59 => Some(Pitch::B4),
            60 => Some(Pitch::C5),
            61 => Some(Pitch::CSharpDFlat5),
            62 => Some(Pitch::D5),
            63 => Some(Pitch::DSharpEFlat5),
            64 => Some(Pitch::E5),
            65 => Some(Pitch::F5),
            66 => Some(Pitch::FSharpGFlat5),
            67 => Some(Pitch::G5),
            68 => Some(Pitch::GSharpAFlat5),
            69 => Some(Pitch::A5),
            70 => Some(Pitch::ASharpBFlat5),
            71 => Some(Pitch::B5),
            72 => Some(Pitch::C6),
            73 => Some(Pitch::CSharpDFlat6),
            74 => Some(Pitch::D6),
            75 => Some(Pitch::DSharpEFlat6),
            76 => Some(Pitch::E6),
            77 => Some(Pitch::F6),
            78 => Some(Pitch::FSharpGFlat6),
            79 => Some(Pitch::G6),
            80 => Some(Pitch::GSharpAFlat6),
            81 => Some(Pitch::A6),
            82 => Some(Pitch::ASharpBFlat6),
            83 => Some(Pitch::B6),
            84 => Some(Pitch::C7),
            85 => Some(Pitch::CSharpDFlat7),
            86 => Some(Pitch::D7),
            87 => Some(Pitch::DSharpEFlat7),
            88 => Some(Pitch::E7),
            89 => Some(Pitch::F7),
            90 => Some(Pitch::FSharpGFlat7),
            91 => Some(Pitch::G7),
            92 => Some(Pitch::GSharpAFlat7),
            93 => Some(Pitch::A7),
            94 => Some(Pitch::ASharpBFlat7),
            95 => Some(Pitch::B7),
            96 => Some(Pitch::C8),
            97 => Some(Pitch::CSharpDFlat8),
            98 => Some(Pitch::D8),
            99 => Some(Pitch::DSharpEFlat8),
            100 => Some(Pitch::E8),
            101 => Some(Pitch::F8),
            102 => Some(Pitch::FSharpGFlat8),
            103 => Some(Pitch::G8),
            104 => Some(Pitch::GSharpAFlat8),
            105 => Some(Pitch::A8),
            106 => Some(Pitch::ASharpBFlat8),
            107 => Some(Pitch::B8),
            108 => Some(Pitch::C9),
            109 => Some(Pitch::CSharpDFlat9),
            110 => Some(Pitch::D9),
            111 => Some(Pitch::DSharpEFlat9),
            112 => Some(Pitch::E9),
            113 => Some(Pitch::F9),
            114 => Some(Pitch::FSharpGFlat9),
            115 => Some(Pitch::G9),
            116 => Some(Pitch::GSharpAFlat9),
            117 => Some(Pitch::A9),
            118 => Some(Pitch::ASharpBFlat9),
            119 => Some(Pitch::B9),
            _ => None,
        }
    }
}


/// The decimal digit character for `d` (0 to 9).
pub open spec fn spec_digit_char(d: int) -> char {
    if d == 0 { '0' } else if d == 1 { '1' } else if d == 2 { '2' } else if d == 3 { '3' }
    else if d == 4 { '4' } else if d == 5 { '5' } else if d == 6 { '6' } else if d == 7 { '7' }
    else if d == 8 { '8' } else { '9' }
}

/// One decimal digit as a string slice.
pub fn digit_str(d: u8) -> (r: &'static str)
    requires
        d <= 9,
    ensures
        r@ == seq![spec_digit_char(d as int)],
{
    let r: &'static str = match d {
        0 => "0",
        1 => "1",
        2 => "2",
        3 => "3",
        4 => "4",
        5 => "5",
        6 => "6",
        7 => "7",
        8 => "8",
        _ => "9",
    };
    proof {
        reveal_strlit("0");
        reveal_strlit("1");
        reveal_strlit("2");
        reveal_strlit("3");
        reveal_strlit("4");
        reveal_strlit("5");
        reveal_strlit("6");
        reveal_strlit("7");
        reveal_strlit("8");
        reveal_strlit("9");
        assert(r@ =~= seq![spec_digit_char(d as int)]);
    }
    r
}

/// The plain letter name of a semitone class (sharp and flat spelled out).
pub open spec fn spec_semitone_name(s: int) -> Seq<char> {
    if s == 0 { seq!['C'] }
    else if s == 1 { seq!['C', 'S', 'h', 'a', 'r', 'p', 'D', 'F', 'l', 'a', 't'] }
    else if s == 2 { seq!['D'] }
    else if s == 3 { seq!['D', 'S', 'h', 'a', 'r', 'p', 'E', 'F', 'l', 'a', 't'] }
    else if s == 4 { seq!['E'] }
    else if s == 5 { seq!['F'] }
    else if s == 6 { seq!['F', 'S', 'h', 'a', 'r', 'p', 'G', 'F', 'l', 'a', 't'] }
    else if s == 7 { seq!['G'] }
    else if s == 8 { seq!['G', 'S', 'h', 'a', 'r', 'p', 'A', 'F', 'l', 'a', 't'] }
    else if s == 9 { seq!['A'] }
    else if s == 10 { seq!['A', 'S', 'h', 'a', 'r', 'p', 'B', 'F', 'l', 'a', 't'] }
    else { seq!['B'] }
}

/// The letter name of a semitone class with sharp and flat signs.
pub open spec fn spec_semitone_pretty(s: int) -> Seq<char> {
    if s == 0 { seq!['C'] }
    else if s == 1 { seq!['C', '♯', 'D', '♭'] }
    else if s == 2 { seq!['D'] }
    else if s == 3 { seq!['D', '♯', 'E', '♭'] }
    else if s == 4 { seq!['E'] }
    else if s == 5 { seq!['F'] }
    else if s == 6 { seq!['F', '♯', 'G', '♭'] }
    else if s == 7 { seq!['G'] }
    else if s == 8 { seq!['G', '♯', 'A', '♭'] }
    else if s == 9 { seq!['A'] }
    else if s == 10 { seq!['A', '♯', 'B', '♭'] }
    else { seq!['B'] }
}

fn semitone_letters(s: u8) -> (r: &'static str)
    requires
        s < 12,
    ensures
        r@ == spec_semitone_name(s as int),
{
    let r: &'static str = match s {
        0 => "C",
        1 => "CSharpDFlat",
        2 => "D",
        3 => "DSharpEFlat",
        4 => "E",
        5 => "F",
        6 => "FSharpGFlat",
        7 => "G",
        8 => "GSharpAFlat",
        9 => "A",
        10 => "ASharpBFlat",
        _ => "B",
    };
    proof {
        reveal_strlit("A");
        reveal_strlit("ASharpBFlat");
        reveal_strlit("B");
        reveal_strlit("C");
        reveal_strlit("CSharpDFlat");
        reveal_strlit("D");
        reveal_strlit("DSharpEFlat");
        reveal_strlit("E");
        reveal_strlit("F");
        reveal_strlit("FSharpGFlat");
        reveal_strlit("G");
        reveal_strlit("GSharpAFlat");
        assert(r@ =~= spec_semitone_name(s as int));
    }
    r
}

fn semitone_letters_pretty(s: u8) -> (r: &'static str)
    requires
        s < 12,
    ensures
        r@ == spec_semitone_pretty(s as int),
{
    let r: &'static str = match s {
        0 => "C",
        1 => "C♯D♭",
        2 => "D",
        3 => "D♯E♭",
        4 => "E",
        5 => "F",
        6 => "F♯G♭",
        7 => "G",
        8 => "G♯A♭",
        9 => "A",
        10 => "A♯B♭",
        _ => "B",
    };
    proof {
        reveal_strlit("A");
        reveal_strlit("A♯B♭");
        reveal_strlit("B");
        reveal_strlit("C");
        reveal_strlit("C♯D♭");
        reveal_strlit("D");
        reveal_strlit("D♯E♭");
        reveal_strlit("E");
        reveal_strlit("F");
        reveal_strlit("F♯G♭");
        reveal_strlit("G");
        reveal_strlit("G♯A♭");
        assert(r@ =~= spec_semitone_pretty(s as int));
    }
    r
}

impl Pitch {
    /// The name of this pitch as written in source, e.g. the tone one semitone above C4
    /// is named with both its sharp and flat spelling followed by the octave digit.
    pub open spec fn spec_name(self) -> Seq<char> {
        spec_semitone_name(self.as_index() as int % 12) + seq![spec_digit_char(self.as_index() as int / 12)]
    }

    /// The display name of this pitch, with sharp and flat signs.
    pub open spec fn spec_plain_text(self) -> Seq<char> {
        spec_semitone_pretty(self.as_index() as int % 12) + seq![spec_digit_char(self.as_index() as int / 12)]
    }

    pub fn name(&self) -> (r: String)
        ensures
            r@ == self.spec_name(),
    {
        let i = self.index();
        let mut s = String::from_str(semitone_letters(i % 12));
        s.append(digit_str(i / 12));
        s
    }

    pub fn plain_text(&self) -> (r: String)
        ensures
            r@ == self.spec_plain_text(),
    {
        let i = self.index();
        let mut s = String::from_str(semitone_letters_pretty(i % 12));
        s.append(digit_str(i / 12));
        s
    }

    /// The pitch `offset` semitones away, if it stays within the enumerated range.
    pub fn plus_offset(&self, offset: i16) -> (r: Option<Pitch>)
        ensures
            0 <= self.as_index() + offset <= 119 ==> (r matches Some(p) && p.as_index() == self.as_index() + offset),
            !(0 <= self.as_index() + offset <= 119) ==> r is None,
    {
        let target: i32 = self.index() as i32 + offset as i32;
        if 0 <= target && target <= 119 {
            Pitch::from_index(target as u8)
        } else {
            None
        }
    }
}

} // verus!
