//! Small helpers for a frontend that shows a table: what changed after a
//! message, the preset sizes of a raise, and the unit in which stacks are
//! shown.

use vstd::prelude::*;

verus! {

/// What changed at the table after a message of the server; a frontend
/// looks at the flags to decide what to draw again.
#[derive(Debug, Clone, Copy, PartialEq, Eq, Structural)]
pub struct StateChanged {
    /// The actions open to the player changed.
    pub actions: bool,
    /// The list of players changed.
    pub players: bool,
    /// Hole cards or community cards changed.
    pub cards: bool,
    /// The pot changed.
    pub pot: bool,
    /// The stage of the hand changed.
    pub phase: bool,
    /// The turn timer changed.
    pub timer: bool,
}

impl StateChanged {
    pub open spec fn spec_any(self) -> bool {
        self.actions || self.players || self.cards || self.pot || self.phase || self.timer
    }

    /// Whether any flag is set.
    pub fn any(self) -> (b: bool)
        ensures
            b == self.spec_any(),
    {
        self.actions || self.players || self.cards || self.pot || self.phase || self.timer
    }
}

impl Default for StateChanged {
    fn default() -> (c: StateChanged)
        ensures
            c == (StateChanged {
                actions: false,
                players: false,
                cards: false,
                pot: false,
                phase: false,
                timer: false,
            }),
            !c.spec_any(),
    {
        StateChanged { actions: false, players: false, cards: false, pot: false, phase: false, timer: false }
    }
}

/// A preset size of a raise.
#[derive(Debug, Clone, Copy, PartialEq, Eq, Structural)]
pub enum RaisePreset {
    /// A percentage of the pot.
    Pot(u32),
    /// The whole stack.
    AllIn,
}

impl RaisePreset {
    /// The preset in words: the four usual percentages by their number,
    /// any other percentage as "?%".
    pub open spec fn spec_label(self) -> Seq<char> {
        match self {
            RaisePreset::Pot(percent) => if percent == 35 {
                "35%"@
            } else if percent == 50 {
                "50%"@
            } else if percent == 75 {
                "75%"@
            } else if percent == 100 {
                "100%"@
            } else {
                "?%"@
            },
            RaisePreset::AllIn => "All-In"@,
        }
    }

    /// The preset in words.
    pub fn label(self) -> (s: &'static str)
        ensures
            s@ == self.spec_label(),
    {
        match self {
            RaisePreset::Pot(35) => "35%",
            RaisePreset::Pot(50) => "50%",
            RaisePreset::Pot(75) => "75%",
            RaisePreset::Pot(100) => "100%",
            RaisePreset::Pot(_) => "?%",
            RaisePreset::AllIn => "All-In",
        }
    }
}

/// The unit in which stacks and pots are shown.
#[derive(Debug, Clone, Copy, PartialEq, Eq, Structural)]
pub enum StackDisplayMode {
    /// In big blinds.
    Blinds,
    /// In chips.
    Chips,
}

impl StackDisplayMode {
    pub open spec fn spec_toggle(self) -> StackDisplayMode {
        match self {
            StackDisplayMode::Blinds => StackDisplayMode::Chips,
            StackDisplayMode::Chips => StackDisplayMode::Blinds,
        }
    }

    /// The other unit.
    pub fn toggle(self) -> (other: StackDisplayMode)
        ensures
            other == self.spec_toggle(),
            other != self,
            other.spec_toggle() == self,
    {
        match self {
            StackDisplayMode::Blinds => StackDisplayMode::Chips,
            StackDisplayMode::Chips => StackDisplayMode::Blinds,
        }
    }
}

} // verus!
