//! Small integer enumerations of the board domain: colors, piece types,
//! packed pieces, squares, ranks, files and directions.
use vstd::prelude::*;

verus! {

pub type Color = u8;
pub type PieceType = u8;
pub type Piece = u8;
pub type Square = u32;
pub type Rank = usize;
pub type File = usize;
pub type Direction = i8;
pub type CastleRights = u8;
pub type Score = i16;

pub const WHITE: Color = 0;
pub const BLACK: Color = 1;

pub const ALL: PieceType = 0;
pub const PAWN: PieceType = 1;
pub const KNIGHT: PieceType = 2;
pub const BISHOP: PieceType = 3;
pub const ROOK: PieceType = 4;
pub const QUEEN: PieceType = 5;
pub const KING: PieceType = 6;

pub const W_KS: CastleRights = 1;
pub const W_QS: CastleRights = 2;
pub const B_KS: CastleRights = 4;
pub const B_QS: CastleRights = 8;
pub const ALL_CASTLING: CastleRights = 15;

pub const NORTH: Direction = 8;
pub const SOUTH: Direction = -8;
pub const EAST: Direction = 1;
pub const WEST: Direction = -1;
pub const NORTH_EAST: Direction = 9;
pub const NORTH_WEST: Direction = 7;
pub const SOUTH_EAST: Direction = -7;
pub const SOUTH_WEST: Direction = -9;

pub const RANK_1: Rank = 0;
pub const RANK_2: Rank = 1;
pub const RANK_3: Rank = 2;
pub const RANK_7: Rank = 6;
pub const RANK_8: Rank = 7;
pub const FILE_A: File = 0;
pub const FILE_H: File = 7;
pub const SQUARE_NB: usize = 64;

/// A packed piece is 0 (no piece) or has a valid type and color.
pub open spec fn is_piece(p: u8) -> bool {
    (1 <= p <= 6) || (9 <= p <= 14)
}

pub open spec fn sq_ok(s: int) -> bool {
    0 <= s < 64
}

pub open spec fn rank_of_int(s: int) -> int {
    s / 8
}

pub open spec fn file_of_int(s: int) -> int {
    s % 8
}

pub fn relative_dir(dir: Direction, color: Color) -> (r: Direction)
    requires
        -64 < dir < 64,
    ensures
        r == if color == WHITE { dir as int } else { -dir as int },
{
    if color == WHITE {
        dir
    } else {
        -dir
    }
}

pub fn swap_color(c: Color) -> (r: Color)
    ensures
        r == (c ^ 1) as u8,
        c == WHITE ==> r == BLACK,
        c == BLACK ==> r == WHITE,
{
    proof {
        assert(c ^ 1 == if c == 0 { 1u8 } else if c == 1 { 0u8 } else { c ^ 1 }) by (bit_vector);
    }
    c ^ 1
}

/// The color that moves after `c`, in spec form.
pub open spec fn other(c: u8) -> u8 {
    if c == 0 {
        1
    } else {
        0
    }
}

pub fn make_piece(color: Color, pt: PieceType) -> (r: Piece)
    requires
        color <= 1,
        pt <= 6,
    ensures
        r == spec_make_piece(color, pt),
{
    proof {
        assert(color <= 1 && pt <= 6 ==> ((color << 3) | pt) == color * 8 + pt) by (bit_vector);
    }
    (color << 3) | pt
}

pub open spec fn spec_make_piece(color: u8, pt: u8) -> u8 {
    (color * 8 + pt) as u8
}

pub fn piecetype_of(piece: Piece) -> (r: PieceType)
    ensures
        r == spec_piecetype_of(piece),
{
    proof {
        assert(piece & 7 == piece % 8) by (bit_vector);
    }
    piece & 7
}

pub open spec fn spec_piecetype_of(piece: u8) -> u8 {
    (piece % 8) as u8
}

pub fn color_of(piece: Piece) -> (r: Color)
    ensures
        r == spec_color_of(piece),
{
    proof {
        assert(piece >> 3 == piece / 8) by (bit_vector);
    }
    piece >> 3
}

pub open spec fn spec_color_of(piece: u8) -> u8 {
    (piece / 8) as u8
}

pub fn piecetype_to_char(pt: PieceType) -> (r: char)
    requires
        pt <= 6,
    ensures
        r == spec_piecetype_to_char(pt),
{
    match pt {
        1u8 => 'p',
        2u8 => 'n',
        3u8 => 'b',
        4u8 => 'r',
        5u8 => 'q',
        6u8 => 'k',
        _ => '.',
    }
}

pub open spec fn spec_piecetype_to_char(pt: u8) -> char {
    if pt == 1 {
        'p'
    } else if pt == 2 {
        'n'
    } else if pt == 3 {
        'b'
    } else if pt == 4 {
        'r'
    } else if pt == 5 {
        'q'
    } else if pt == 6 {
        'k'
    } else {
        '.'
    }
}

/// The piece denoted by a FEN letter, or `None` for any other character.
pub fn char_to_piece(piece_char: char) -> (r: Option<Piece>)
    ensures
        r == spec_char_to_piece(piece_char),
        r is Some ==> is_piece(r->Some_0),
{
    match piece_char {
        'P' => Some(1),
        'N' => Some(2),
        'B' => Some(3),
        'R' => Some(4),
        'Q' => Some(5),
        'K' => Some(6),
        'p' => Some(9),
        'n' => Some(10),
        'b' => Some(11),
        'r' => Some(12),
        'q' => Some(13),
        'k' => Some(14),
        _ => None,
    }
}

pub open spec fn spec_char_to_piece(c: char) -> Option<u8> {
    if c == 'P' {
        Some(1u8)
    } else if c == 'N' {
        Some(2u8)
    } else if c == 'B' {
        Some(3u8)
    } else if c == 'R' {
        Some(4u8)
    } else if c == 'Q' {
        Some(5u8)
    } else if c == 'K' {
        Some(6u8)
    } else if c == 'p' {
        Some(9u8)
    } else if c == 'n' {
        Some(10u8)
    } else if c == 'b' {
        Some(11u8)
    } else if c == 'r' {
        Some(12u8)
    } else if c == 'q' {
        Some(13u8)
    } else if c == 'k' {
        Some(14u8)
    } else {
        None
    }
}

pub fn relative_rank(rank: Rank, c: Color) -> (r: Rank)
    requires
        rank <= 7,
    ensures
        r == if c == WHITE { rank as int } else { 7 - rank },
{
    if c == WHITE {
        rank
    } else {
        7 - rank
    }
}

pub fn rank_of(sq: Square) -> (r: Rank)
    requires
        sq < 64,
    ensures
        r == rank_of_int(sq as int),
{
    proof {
        assert(sq < 64 ==> (sq >> 3) == sq / 8) by (bit_vector);
    }
    (sq >> 3) as usize
}

pub fn file_of(sq: Square) -> (r: File)
    requires
        sq < 64,
    ensures
        r == file_of_int(sq as int),
{
    proof {
        assert(sq < 64 ==> (sq & 7) == sq % 8) by (bit_vector);
    }
    (sq & 7) as usize
}

pub fn char_to_rank(c: char) -> (r: Option<Rank>)
    ensures
        ('1' <= c <= '8') <==> r is Some,
        r is Some ==> r->Some_0 == c as int - '1' as int,
{
    if '1' <= c && c <= '8' {
        Some((c as u8 - 49) as usize)
    } else {
        None
    }
}

pub fn rank_to_char(rank: Rank) -> (r: char)
    requires
        rank <= 7,
    ensures
        r as int == '1' as int + rank,
{
    (rank as u8 + 49) as char
}

pub fn char_to_file(c: char) -> (r: Option<File>)
    ensures
        ('a' <= c <= 'h') <==> r is Some,
        r is Some ==> r->Some_0 == c as int - 'a' as int,
{
    if 'a' <= c && c <= 'h' {
        Some((c as u8 - 97) as usize)
    } else {
        None
    }
}

pub fn file_to_char(file: File) -> (r: char)
    requires
        file <= 7,
    ensures
        r as int == 'a' as int + file,
{
    (file as u8 + 97) as char
}

/// Square of the pawn removed by an en-passant capture onto `ep_target_sq`.
pub fn ep_captured_sq(ep_target_sq: Square) -> (r: Square)
    requires
        ep_target_sq < 64,
    ensures
        r == spec_ep_captured_sq(ep_target_sq as int),
{
    proof {
        assert(ep_target_sq < 64 ==> (ep_target_sq ^ 8) == if (ep_target_sq / 8) % 2 == 0 {
            ep_target_sq + 8
        } else {
            ep_target_sq - 8
        }) by (bit_vector);
    }
    ep_target_sq ^ 8
}

pub open spec fn spec_ep_captured_sq(s: int) -> int {
    if (s / 8) % 2 == 0 {
        s + 8
    } else {
        s - 8
    }
}

pub fn to_square(rank: Rank, file: File) -> (r: Square)
    requires
        rank <= 7,
        file <= 7,
    ensures
        r == 8 * rank + file,
        sq_ok(r as int),
        rank_of_int(r as int) == rank,
        file_of_int(r as int) == file,
{
    (8 * rank + file) as Square
}

pub fn str_to_square(s: &str) -> (r: Option<Square>)
    ensures
        r is Some ==> {
            &&& s@.len() >= 2
            &&& sq_ok(r->Some_0 as int)
            &&& file_of_int(r->Some_0 as int) == s@[0] as int - 'a' as int
            &&& rank_of_int(r->Some_0 as int) == s@[1] as int - '1' as int
        },
        (s@.len() >= 2 && 'a' <= s@[0] <= 'h' && '1' <= s@[1] <= '8') ==> r is Some,
{
    if s.unicode_len() < 2 {
        return None;
    }
    let fc = s.get_char(0);
    let rc = s.get_char(1);
    let file = match char_to_file(fc) {
        Some(f) => f,
        None => { return None; },
    };
    let rank = match char_to_rank(rc) {
        Some(k) => k,
        None => { return None; },
    };
    Some(to_square(rank, file))
}

/// The letter of a file index.
pub open spec fn file_char(f: int) -> char {
    ((97 + f) as u8) as char
}

/// The digit of a rank index.
pub open spec fn rank_char(k: int) -> char {
    ((49 + k) as u8) as char
}

pub fn square_to_str(sq: Square) -> (r: String)
    requires
        sq < 64,
    ensures
        r@.len() == 2,
        r@[0] == file_char(file_of_int(sq as int)),
        r@[1] == rank_char(rank_of_int(sq as int)),
{
    let f = file_of(sq);
    let k = rank_of(sq);
    let fs: &str = match f {
        0usize => "a",
        1usize => "b",
        2usize => "c",
        3usize => "d",
        4usize => "e",
        5usize => "f",
        6usize => "g",
        _ => "h",
    };
    let ks: &str = match k {
        0usize => "1",
        1usize => "2",
        2usize => "3",
        3usize => "4",
        4usize => "5",
        5usize => "6",
        6usize => "7",
        _ => "8",
    };
    proof {
        reveal_strlit("a");
        reveal_strlit("b");
        reveal_strlit("c");
        reveal_strlit("d");
        reveal_strlit("e");
        reveal_strlit("f");
        reveal_strlit("g");
        reveal_strlit("h");
        reveal_strlit("1");
        reveal_strlit("2");
        reveal_strlit("3");
        reveal_strlit("4");
        reveal_strlit("5");
        reveal_strlit("6");
        reveal_strlit("7");
        reveal_strlit("8");
    }
    let mut r = String::from_str(fs);
    r.append(ks);
    r
}

/// Chebyshev distance between two squares: the number of king steps.
pub fn distance(sq1: Square, sq2: Square) -> (r: u8)
    requires
        sq1 < 64,
        sq2 < 64,
    ensures
        r == spec_distance(sq1 as int, sq2 as int),
{
    let r1 = rank_of(sq1);
    let r2 = rank_of(sq2);
    let f1 = file_of(sq1);
    let f2 = file_of(sq2);
    let vert = if r1 >= r2 {
        r1 - r2
    } else {
        r2 - r1
    };
    let hori = if f1 >= f2 {
        f1 - f2
    } else {
        f2 - f1
    };
    if vert >= hori {
        vert as u8
    } else {
        hori as u8
    }
}

pub open spec fn abs_int(x: int) -> int {
    if x >= 0 {
        x
    } else {
        -x
    }
}

pub open spec fn spec_distance(s1: int, s2: int) -> int {
    let v = abs_int(rank_of_int(s1) - rank_of_int(s2));
    let h = abs_int(file_of_int(s1) - file_of_int(s2));
    if v >= h {
        v
    } else {
        h
    }
}

} // verus!
