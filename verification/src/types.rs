//! Core value types: colors, piece kinds, squares, castling rights.

use crate::text::{char_from_digit, owned, push_char, push_str};
use vstd::string::StringSliceAdditionalSpecFns;
use vstd::prelude::*;

verus! {

#[derive(Clone, Copy, PartialEq, Eq, Debug, Hash, Structural)]
pub enum Color {
    White,
    Black,
}

/// Index of a color: white 0, black 1.
pub open spec fn color_idx(c: Color) -> int {
    match c {
        Color::White => 0,
        Color::Black => 1,
    }
}

/// The other color.
pub open spec fn other(c: Color) -> Color {
    match c {
        Color::White => Color::Black,
        Color::Black => Color::White,
    }
}

impl Color {
    #[inline]
    pub fn opp(self) -> (r: Color)
        ensures
            r == other(self),
    {
        match self {
            Color::White => Color::Black,
            Color::Black => Color::White,
        }
    }

    #[inline]
    pub fn index(self) -> (r: usize)
        ensures
            r == color_idx(self),
    {
        match self {
            Color::White => 0,
            Color::Black => 1,
        }
    }
}

#[derive(Clone, Copy, PartialEq, Eq, Debug, Hash, Structural)]
pub enum PieceType {
    Pawn,
    Knight,
    Bishop,
    Rook,
    Queen,
    King,
}

/// Index of a piece kind: pawn 0, knight 1, bishop 2, rook 3, queen 4, king 5.
pub open spec fn kind_idx(k: PieceType) -> int {
    match k {
        PieceType::Pawn => 0,
        PieceType::Knight => 1,
        PieceType::Bishop => 2,
        PieceType::Rook => 3,
        PieceType::Queen => 4,
        PieceType::King => 5,
    }
}

/// The piece kind with index `i` (0..6).
pub open spec fn kind_of(i: int) -> PieceType {
    if i == 0 {
        PieceType::Pawn
    } else if i == 1 {
        PieceType::Knight
    } else if i == 2 {
        PieceType::Bishop
    } else if i == 3 {
        PieceType::Rook
    } else if i == 4 {
        PieceType::Queen
    } else {
        PieceType::King
    }
}

/// The color with index `i` (0 or 1).
pub open spec fn color_of(i: int) -> Color {
    if i == 0 {
        Color::White
    } else {
        Color::Black
    }
}

/// Lowercase letter of a piece kind (`p n b r q k`).
pub open spec fn kind_char(k: PieceType) -> char {
    match k {
        PieceType::Pawn => 'p',
        PieceType::Knight => 'n',
        PieceType::Bishop => 'b',
        PieceType::Rook => 'r',
        PieceType::Queen => 'q',
        PieceType::King => 'k',
    }
}

/// The piece kind named by a letter of either case.
pub open spec fn kind_from_char(c: char) -> Option<PieceType> {
    if c == 'p' || c == 'P' {
        Some(PieceType::Pawn)
    } else if c == 'n' || c == 'N' {
        Some(PieceType::Knight)
    } else if c == 'b' || c == 'B' {
        Some(PieceType::Bishop)
    } else if c == 'r' || c == 'R' {
        Some(PieceType::Rook)
    } else if c == 'q' || c == 'Q' {
        Some(PieceType::Queen)
    } else if c == 'k' || c == 'K' {
        Some(PieceType::King)
    } else {
        None
    }
}

/// ASCII uppercase of a lowercase letter (other characters unchanged).
pub open spec fn upper(c: char) -> char {
    if 'a' <= c && c <= 'z' {
        ((c as u32) - 32) as char
    } else {
        c
    }
}

impl PieceType {
    pub const ALL: [PieceType; 6] = [
        PieceType::Pawn,
        PieceType::Knight,
        PieceType::Bishop,
        PieceType::Rook,
        PieceType::Queen,
        PieceType::King,
    ];

    #[inline]
    pub fn index(self) -> (r: usize)
        ensures
            r == kind_idx(self),
    {
        match self {
            PieceType::Pawn => 0,
            PieceType::Knight => 1,
            PieceType::Bishop => 2,
            PieceType::Rook => 3,
            PieceType::Queen => 4,
            PieceType::King => 5,
        }
    }

    /// Lowercase character used by FEN/SAN (`p n b r q k`).
    pub fn to_char(self) -> (r: char)
        ensures
            r == kind_char(self),
    {
        match self {
            PieceType::Pawn => 'p',
            PieceType::Knight => 'n',
            PieceType::Bishop => 'b',
            PieceType::Rook => 'r',
            PieceType::Queen => 'q',
            PieceType::King => 'k',
        }
    }

    /// The piece kind named by `c`, in either case.
    pub fn from_char(c: char) -> (r: Option<PieceType>)
        ensures
            r == kind_from_char(c),
    {
        if c == 'p' || c == 'P' {
            Some(PieceType::Pawn)
        } else if c == 'n' || c == 'N' {
            Some(PieceType::Knight)
        } else if c == 'b' || c == 'B' {
            Some(PieceType::Bishop)
        } else if c == 'r' || c == 'R' {
            Some(PieceType::Rook)
        } else if c == 'q' || c == 'Q' {
            Some(PieceType::Queen)
        } else if c == 'k' || c == 'K' {
            Some(PieceType::King)
        } else {
            None
        }
    }
}

#[derive(Clone, Copy, PartialEq, Eq, Debug, Hash, Structural)]
pub struct Piece {
    pub color: Color,
    pub kind: PieceType,
}

/// FEN letter of a piece: uppercase for white, lowercase for black.
pub open spec fn piece_char(p: Piece) -> char {
    match p.color {
        Color::White => upper(kind_char(p.kind)),
        Color::Black => kind_char(p.kind),
    }
}

/// The piece named by a FEN letter.
pub open spec fn piece_from_char(c: char) -> Option<Piece> {
    match kind_from_char(c) {
        Some(k) => Some(
            Piece { color: if 'A' <= c && c <= 'Z' { Color::White } else { Color::Black }, kind: k },
        ),
        None => None,
    }
}

impl Piece {
    pub fn new(color: Color, kind: PieceType) -> (r: Piece)
        ensures
            r == (Piece { color, kind }),
    {
        Piece { color, kind }
    }

    /// FEN character: uppercase for white, lowercase for black.
    pub fn to_char(self) -> (r: char)
        ensures
            r == piece_char(self),
    {
        match self.color {
            Color::White => match self.kind {
                PieceType::Pawn => 'P',
                PieceType::Knight => 'N',
                PieceType::Bishop => 'B',
                PieceType::Rook => 'R',
                PieceType::Queen => 'Q',
                PieceType::King => 'K',
            },
            Color::Black => self.kind.to_char(),
        }
    }

    pub fn from_char(c: char) -> (r: Option<Piece>)
        ensures
            r == piece_from_char(c),
    {
        let kind = PieceType::from_char(c)?;
        let color = if 'A' <= c && c <= 'Z' {
            Color::White
        } else {
            Color::Black
        };
        Some(Piece { color, kind })
    }
}

/// A board square, 0..=63, little-endian rank-file: a1=0, b1=1, ... h8=63.
#[derive(Clone, Copy, PartialEq, Eq, Debug, Hash, Structural)]
pub struct Square(pub u8);

/// The file (0..8) of square index `s`.
pub open spec fn file_of(s: int) -> int {
    s % 8
}

/// The rank (0..8) of square index `s`.
pub open spec fn rank_of(s: int) -> int {
    s / 8
}

/// Algebraic name of a square, e.g. "e4".
pub open spec fn square_name(s: int) -> Seq<char> {
    seq![(('a' as u32) + file_of(s)) as char, (('1' as u32) + rank_of(s)) as char]
}

impl Square {
    pub open spec fn valid(self) -> bool {
        self.0 < 64
    }

    #[inline]
    pub fn new(index: u8) -> (r: Square)
        requires
            index < 64,
        ensures
            r.0 == index,
    {
        Square(index)
    }

    #[inline]
    pub fn from_file_rank(file: u8, rank: u8) -> (r: Square)
        requires
            file < 8,
            rank < 8,
        ensures
            r.0 == rank * 8 + file,
    {
        Square(rank * 8 + file)
    }

    #[inline]
    pub fn file(self) -> (r: u8)
        ensures
            r == file_of(self.0 as int),
    {
        let s = self.0;
        assert(s & 7 == s % 8) by (bit_vector);
        s & 7
    }

    #[inline]
    pub fn rank(self) -> (r: u8)
        ensures
            r == rank_of(self.0 as int),
    {
        let s = self.0;
        proof {
            vstd::bits::lemma_u8_shr_is_div(s, 3);
            vstd::arithmetic::power2::lemma2_to64();
        }
        s >> 3
    }

    #[inline]
    pub fn index(self) -> (r: usize)
        ensures
            r == self.0,
    {
        self.0 as usize
    }
    /// Algebraic name, e.g. "e4".
    pub fn to_string(self) -> (r: String)
        requires
            self.valid(),
        ensures
            r@ == square_name(self.0 as int),
    {
        let mut s = String::new();
        let f = self.file();
        let r = self.rank();
        push_char(&mut s, char_from_code(97 + f as u32));
        push_char(&mut s, char_from_code(49 + r as u32));
        assert(s@ =~= square_name(self.0 as int));
        s
    }

    /// Parse an algebraic name, e.g. "e4". The text must be exactly two
    /// bytes, a file letter `a`..`h` followed by a rank digit `1`..`8`.
    pub fn from_str(s: &str) -> (r: Result<Square, String>)
        ensures
            match r {
                Ok(sq) => square_text_ok(s.spec_bytes()) && sq.0 == (s.spec_bytes()[1] - 49) * 8 + (
                s.spec_bytes()[0] - 97),
                Err(e) => !square_text_ok(s.spec_bytes()) && e@ == bad_square_msg(s@),
            },
    {
        let bytes = s.as_bytes();
        if bytes.len() != 2 {
            return Err(bad_square(s));
        }
        let b0 = bytes[0];
        let b1 = bytes[1];
        if b0 >= 97 && b0 - 97 < 8 && b1 >= 49 && b1 - 49 < 8 {
            Ok(Square::from_file_rank(b0 - 97, b1 - 49))
        } else {
            Err(bad_square(s))
        }
    }
}

/// Two bytes: a file letter `a`..`h` then a rank digit `1`..`8`.
pub open spec fn square_text_ok(b: Seq<u8>) -> bool {
    b.len() == 2 && 97 <= b[0] < 105 && 49 <= b[1] < 57
}

/// The error text for an unparsable square name.
pub open spec fn bad_square_msg(s: Seq<char>) -> Seq<char> {
    "bad square '"@ + s + "'"@
}

fn bad_square(s: &str) -> (e: String)
    ensures
        e@ == bad_square_msg(s@),
{
    let mut e = owned("bad square '");
    push_str(&mut e, s);
    push_str(&mut e, "'");
    e
}

/// The character with code point `code` (an ASCII code).
pub(crate) fn char_from_code(code: u32) -> (c: char)
    requires
        code < 128,
    ensures
        c == code as char,
{
    code as u8 as char
}

/// Castling availability, packed into 4 bits.
#[derive(Clone, Copy, PartialEq, Eq, Debug, Hash, Structural)]
pub struct CastleRights(pub u8);

impl CastleRights {
    pub const WHITE_KING: u8 = 0b0001;
    pub const WHITE_QUEEN: u8 = 0b0010;
    pub const BLACK_KING: u8 = 0b0100;
    pub const BLACK_QUEEN: u8 = 0b1000;

    pub fn none() -> (r: CastleRights)
        ensures
            r.0 == 0,
    {
        CastleRights(0)
    }

    #[inline]
    pub fn has(self, flag: u8) -> (r: bool)
        ensures
            r == (self.0 & flag != 0),
    {
        self.0 & flag != 0
    }

    #[inline]
    pub fn add(&mut self, flag: u8)
        ensures
            final(self).0 == old(self).0 | flag,
    {
        self.0 = self.0 | flag;
    }

    #[inline]
    pub fn bits(self) -> (r: u8)
        ensures
            r == self.0,
    {
        self.0
    }
}

} // verus!
