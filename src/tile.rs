//! One cell: its fixed content, its visibility, and how clicks change it.

use vstd::prelude::*;

verus! {

/// What a cell holds, fixed when the board is made.
#[derive(Clone, Copy, Debug, PartialEq, Eq, Structural)]
pub enum Kind {
    Mine,
    /// A safe cell with the number of mines around it.
    Count(u8),
}

#[derive(Clone, Copy, Debug, PartialEq, Eq, Structural)]
pub enum Visibility {
    Hidden,
    Revealed,
    Flagged,
}

/// Outcome of a session as seen after a command.
#[derive(Clone, Copy, Debug, PartialEq, Eq, Structural)]
pub enum GameState {
    Won,
    Lost,
    Playing,
    /// The player left the session; neither a win nor a loss.
    Quit,
}

/// A cell's content together with what the player sees of it.
#[derive(Clone, Copy, Debug, PartialEq, Eq, Structural)]
pub struct State {
    pub kind: Kind,
    pub visibility: Visibility,
}

/// What a renderer draws for a cell.
#[derive(Clone, Copy, Debug, PartialEq, Eq, Structural)]
pub enum GlyphClass {
    Blank,
    Digit(u8),
    /// The mine that was clicked.
    FatalMine,
    /// A mine shown once the session is over.
    Mine,
    Flag,
    Covered,
}

#[derive(Clone, Copy, Debug, PartialEq, Eq, Structural)]
pub struct Glyph {
    pub class: GlyphClass,
    pub selected: bool,
}

pub open spec fn count_glyph(n: u8) -> GlyphClass {
    if n == 0 { GlyphClass::Blank } else { GlyphClass::Digit(n) }
}

/// The glyph class of a state; `forced` shows the whole board.
pub open spec fn glyph_class(s: State, forced: bool) -> GlyphClass {
    match (s.visibility, s.kind) {
        (Visibility::Revealed, Kind::Count(n)) => count_glyph(n),
        (Visibility::Revealed, Kind::Mine) => GlyphClass::FatalMine,
        (Visibility::Flagged, Kind::Count(n)) => if forced { count_glyph(n) } else { GlyphClass::Flag },
        (Visibility::Flagged, Kind::Mine) => GlyphClass::Flag,
        (Visibility::Hidden, Kind::Mine) => if forced { GlyphClass::Mine } else { GlyphClass::Covered },
        (Visibility::Hidden, Kind::Count(n)) => if forced { count_glyph(n) } else { GlyphClass::Covered },
    }
}

/// The state after a left click, and its result.
pub open spec fn left_clicked(s: State) -> (State, GameState) {
    if s.visibility == Visibility::Hidden {
        (State { kind: s.kind, visibility: Visibility::Revealed },
         if s.kind == Kind::Mine { GameState::Lost } else { GameState::Playing })
    } else {
        (s, GameState::Playing)
    }
}

pub open spec fn right_clicked(s: State) -> State {
    State {
        kind: s.kind,
        visibility: match s.visibility {
            Visibility::Hidden => Visibility::Flagged,
            Visibility::Flagged => Visibility::Hidden,
            Visibility::Revealed => Visibility::Revealed,
        },
    }
}

impl State {
    pub fn new(kind: Kind) -> (r: State)
        ensures
            r == (State { kind, visibility: Visibility::Hidden }),
    {
        State { kind, visibility: Visibility::Hidden }
    }

    pub fn render(&self, selected: bool, forced: bool) -> (r: Glyph)
        ensures
            r == (Glyph { class: glyph_class(*self, forced), selected }),
    {
        let class = match (self.visibility, self.kind) {
            (Visibility::Revealed, Kind::Count(n)) => count_class(n),
            (Visibility::Revealed, Kind::Mine) => GlyphClass::FatalMine,
            (Visibility::Flagged, Kind::Count(n)) => if forced { count_class(n) } else { GlyphClass::Flag },
            (Visibility::Flagged, Kind::Mine) => GlyphClass::Flag,
            (Visibility::Hidden, Kind::Mine) => if forced { GlyphClass::Mine } else { GlyphClass::Covered },
            (Visibility::Hidden, Kind::Count(n)) => if forced { count_class(n) } else { GlyphClass::Covered },
        };
        Glyph { class, selected }
    }

    /// Uncovers a hidden cell; a hidden mine loses the game. Revealed and
    /// flagged cells are left as they are.
    pub fn left_click(&mut self) -> (r: GameState)
        ensures
            (*final(self), r) == left_clicked(*old(self)),
    {
        match self.visibility {
            Visibility::Hidden => {
                self.visibility = Visibility::Revealed;
                match self.kind {
                    Kind::Mine => GameState::Lost,
                    Kind::Count(_) => GameState::Playing,
                }
            },
            _ => GameState::Playing,
        }
    }

    /// Toggles a flag on a covered cell; a revealed cell is left as it is.
    pub fn right_click(&mut self)
        ensures
            *final(self) == right_clicked(*old(self)),
    {
        match self.visibility {
            Visibility::Hidden => self.visibility = Visibility::Flagged,
            Visibility::Flagged => self.visibility = Visibility::Hidden,
            Visibility::Revealed => {},
        }
    }
}

fn count_class(n: u8) -> (r: GlyphClass)
    ensures
        r == count_glyph(n),
{
    if n == 0 { GlyphClass::Blank } else { GlyphClass::Digit(n) }
}

/// A flagged cell, mine or not, cannot be set off: left-clicking it
/// changes nothing and the game goes on.
pub proof fn lemma_flag_safety(s: State)
    requires
        s.visibility == Visibility::Flagged,
    ensures
        left_clicked(s) == (s, GameState::Playing),
{
}

/// A cell on the board: its state and the mark used during one chain reveal.
#[derive(Clone, Copy, Debug, PartialEq, Eq, Structural)]
pub struct Tile {
    pub state: State,
    pub checked: bool,
}

} // verus!
