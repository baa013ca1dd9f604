use vstd::prelude::*;

verus! {

/// One of the two players.
#[derive(Clone, Copy, PartialEq, Eq, Debug, Hash, Structural)]
pub enum Color {
    White,
    Black,
}

impl Color {
    pub open spec fn opposite(self) -> Color {
        match self {
            Color::White => Color::Black,
            Color::Black => Color::White,
        }
    }

    /// The other player.
    pub fn flip(self) -> (r: Color)
        ensures
            r == self.opposite(),
    {
        match self {
            Color::White => Color::Black,
            Color::Black => Color::White,
        }
    }
}

/// The result of a finished game.
#[derive(Clone, Copy, PartialEq, Eq, Debug, Hash, Structural)]
pub enum GameResult {
    WhiteWin,
    BlackWin,
    Draw,
}

impl GameResult {
    pub open spec fn win_for(color: Color) -> GameResult {
        match color {
            Color::White => GameResult::WhiteWin,
            Color::Black => GameResult::BlackWin,
        }
    }
}

/// One of the 3 piece roles in Tak. The same as piece, but without different variants for each color.
#[derive(Clone, Copy, PartialEq, Eq, Debug, Hash, Structural)]
pub enum Role {
    Flat,
    Wall,
    Cap,
}

impl Role {
    pub open spec fn index(self) -> nat {
        match self {
            Role::Flat => 0,
            Role::Wall => 1,
            Role::Cap => 2,
        }
    }

    /// The role's discriminant: 0 for a flat stone, 1 for a wall, 2 for a capstone.
    pub fn disc(self) -> (r: usize)
        ensures
            r == self.index(),
    {
        match self {
            Role::Flat => 0,
            Role::Wall => 1,
            Role::Cap => 2,
        }
    }
}

/// One of the 6 game pieces in Tak. Each piece has one variant for each color.
#[derive(Clone, Copy, PartialEq, Eq, Debug, Hash, Structural)]
pub enum Piece {
    WhiteFlat,
    BlackFlat,
    WhiteWall,
    BlackWall,
    WhiteCap,
    BlackCap,
}

/// The piece of the given role and color.
pub open spec fn piece_of(role: Role, color: Color) -> Piece {
    match (role, color) {
        (Role::Flat, Color::White) => Piece::WhiteFlat,
        (Role::Wall, Color::White) => Piece::WhiteWall,
        (Role::Cap, Color::White) => Piece::WhiteCap,
        (Role::Flat, Color::Black) => Piece::BlackFlat,
        (Role::Wall, Color::Black) => Piece::BlackWall,
        (Role::Cap, Color::Black) => Piece::BlackCap,
    }
}

/// The flat stone of the given color.
pub open spec fn flat_of(color: Color) -> Piece {
    piece_of(Role::Flat, color)
}

impl Piece {
    pub open spec fn role_of(self) -> Role {
        match self {
            Piece::WhiteFlat | Piece::BlackFlat => Role::Flat,
            Piece::WhiteWall | Piece::BlackWall => Role::Wall,
            Piece::WhiteCap | Piece::BlackCap => Role::Cap,
        }
    }

    pub open spec fn color_of(self) -> Color {
        match self {
            Piece::WhiteFlat | Piece::WhiteWall | Piece::WhiteCap => Color::White,
            Piece::BlackFlat | Piece::BlackWall | Piece::BlackCap => Color::Black,
        }
    }

    /// Flat stones and capstones count towards a road, walls do not.
    pub open spec fn is_road(self) -> bool {
        self.role_of() != Role::Wall
    }

    /// The piece with the same role and the other color.
    pub open spec fn flipped(self) -> Piece {
        piece_of(self.role_of(), self.color_of().opposite())
    }

    pub fn from_role_color(role: Role, color: Color) -> (r: Piece)
        ensures
            r == piece_of(role, color),
            r.role_of() == role,
            r.color_of() == color,
    {
        match (role, color) {
            (Role::Flat, Color::White) => Piece::WhiteFlat,
            (Role::Wall, Color::White) => Piece::WhiteWall,
            (Role::Cap, Color::White) => Piece::WhiteCap,
            (Role::Flat, Color::Black) => Piece::BlackFlat,
            (Role::Wall, Color::Black) => Piece::BlackWall,
            (Role::Cap, Color::Black) => Piece::BlackCap,
        }
    }

    pub fn role(self) -> (r: Role)
        ensures
            r == self.role_of(),
    {
        match self {
            Piece::WhiteFlat | Piece::BlackFlat => Role::Flat,
            Piece::WhiteWall | Piece::BlackWall => Role::Wall,
            Piece::WhiteCap | Piece::BlackCap => Role::Cap,
        }
    }

    pub fn color(self) -> (r: Color)
        ensures
            r == self.color_of(),
    {
        match self {
            Piece::WhiteFlat | Piece::WhiteWall | Piece::WhiteCap => Color::White,
            Piece::BlackFlat | Piece::BlackWall | Piece::BlackCap => Color::Black,
        }
    }

    pub fn is_road_piece(self) -> (r: bool)
        ensures
            r == self.is_road(),
    {
        match self {
            Piece::WhiteFlat | Piece::BlackFlat | Piece::WhiteCap | Piece::BlackCap => true,
            Piece::WhiteWall | Piece::BlackWall => false,
        }
    }

    pub fn flip_color(self) -> (r: Piece)
        ensures
            r == self.flipped(),
            r.role_of() == self.role_of(),
            r.color_of() == self.color_of().opposite(),
    {
        match self {
            Piece::WhiteFlat => Piece::BlackFlat,
            Piece::BlackFlat => Piece::WhiteFlat,
            Piece::WhiteWall => Piece::BlackWall,
            Piece::BlackWall => Piece::WhiteWall,
            Piece::WhiteCap => Piece::BlackCap,
            Piece::BlackCap => Piece::WhiteCap,
        }
    }
}

/// A handicap for the flat count, in half points, added to Black's side.
#[derive(Clone, Copy, PartialEq, Eq, Debug, Hash, Structural)]
pub struct Komi {
    half_komi: i8,
}

/// The result of a flat count: `2 * (white - black) - half_komi` decides.
pub open spec fn flat_count_result(white_flats: int, black_flats: int, half_komi: int) -> GameResult {
    let margin = 2 * (white_flats - black_flats) - half_komi;
    if margin > 0 {
        GameResult::WhiteWin
    } else if margin < 0 {
        GameResult::BlackWin
    } else {
        GameResult::Draw
    }
}

impl Komi {
    pub closed spec fn half(self) -> int {
        self.half_komi as int
    }

    /// No komi at all.
    pub fn zero() -> (r: Komi)
        ensures
            r.half() == 0,
    {
        Komi { half_komi: 0 }
    }

    /// A komi of `half_komi` half points, which must lie in -10..=10.
    pub fn from_half_komi(half_komi: i8) -> (r: Option<Komi>)
        ensures
            r.is_some() <==> -10 <= half_komi <= 10,
            r.is_some() ==> r.unwrap().half() == half_komi,
    {
        if -10 <= half_komi && half_komi <= 10 {
            Some(Komi { half_komi })
        } else {
            None
        }
    }

    pub fn half_komi(self) -> (r: i8)
        ensures
            r == self.half(),
    {
        self.half_komi
    }

    /// The result of a flat count, where komi is added to Black's count.
    pub fn game_result_with_flatcounts(self, white_flats: i8, black_flats: i8) -> (r: GameResult)
        ensures
            r == flat_count_result(white_flats as int, black_flats as int, self.half()),
    {
        let margin: i32 = 2 * (white_flats as i32 - black_flats as i32) - self.half_komi as i32;
        if margin > 0 {
            GameResult::WhiteWin
        } else if margin < 0 {
            GameResult::BlackWin
        } else {
            GameResult::Draw
        }
    }
}

} // verus!
