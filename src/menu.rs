use vstd::prelude::*;

use crate::mode::{str_equal, Mode};
use crate::text::{parse_u16, parse_u16_spec, parse_usize, parse_usize_spec};

verus! {

/// What the player asked for at the map menu.
#[derive(Debug, PartialEq, Eq, Structural, Clone, Copy)]
pub enum ModeAction {
    /// Play the offered map at this position (from 0).
    SelectMap(usize),
    ChangeMode,
    SetPlayerCt,
    Percents,
    AllMaps,
    Shuffle,
}

/// Why a menu answer was not understood.
#[derive(Debug, PartialEq, Eq, Structural, Clone, Copy)]
pub enum MenuError {
    /// A map number outside `1..=max`.
    OutOfRange { selected: usize, max: usize },
    /// Neither a map number nor a known letter.
    BadResponse,
}

/// The action that a trimmed answer at the map menu asks for, with `map_ct`
/// maps on offer: a number picks a map (counting from 1), and the letters
/// `m`, `p`, `%`, `a` and `s` pick the other actions.
pub open spec fn mode_action_of(response: Seq<char>, map_ct: usize) -> Result<ModeAction, MenuError> {
    match parse_usize_spec(response) {
        Some(n) => if 0 < n <= map_ct {
            Ok(ModeAction::SelectMap((n - 1) as usize))
        } else {
            Err(MenuError::OutOfRange { selected: n, max: map_ct })
        },
        None => if response == "m"@ {
            Ok(ModeAction::ChangeMode)
        } else if response == "p"@ {
            Ok(ModeAction::SetPlayerCt)
        } else if response == "%"@ {
            Ok(ModeAction::Percents)
        } else if response == "a"@ {
            Ok(ModeAction::AllMaps)
        } else if response == "s"@ {
            Ok(ModeAction::Shuffle)
        } else {
            Err(MenuError::BadResponse)
        },
    }
}

/// Reads a trimmed answer at the map menu.
pub fn get_mode_action(response: &str, map_ct: usize) -> (r: Result<ModeAction, MenuError>)
    ensures
        r == mode_action_of(response@, map_ct),
{
    match parse_usize(response) {
        Some(n) => {
            if n <= map_ct && n > 0 {
                Ok(ModeAction::SelectMap(n - 1))
            } else {
                Err(MenuError::OutOfRange { selected: n, max: map_ct })
            }
        },
        None => {
            if str_equal(response, "m") {
                Ok(ModeAction::ChangeMode)
            } else if str_equal(response, "p") {
                Ok(ModeAction::SetPlayerCt)
            } else if str_equal(response, "%") {
                Ok(ModeAction::Percents)
            } else if str_equal(response, "a") {
                Ok(ModeAction::AllMaps)
            } else if str_equal(response, "s") {
                Ok(ModeAction::Shuffle)
            } else {
                Err(MenuError::BadResponse)
            }
        },
    }
}

/// The smallest number of players the recommender serves.
pub const MIN_PLAYERS: u16 = 8;

/// The largest number of players the recommender serves.
pub const MAX_PLAYERS: u16 = 16;

/// Reads a trimmed answer to "how many players": a number from 8 to 16.
pub fn prompt_for_player_ct(response: &str) -> (r: Option<u16>)
    ensures
        r == match parse_u16_spec(response@) {
            Some(n) => if MIN_PLAYERS <= n <= MAX_PLAYERS {
                Some(n)
            } else {
                None
            },
            None => None,
        },
{
    match parse_u16(response) {
        Some(n) => {
            if MIN_PLAYERS <= n && n <= MAX_PLAYERS {
                Some(n)
            } else {
                None
            }
        },
        None => None,
    }
}

/// The mode that the first character of an answer at the mode menu picks:
/// `1` to `6` pick the modes in their declared order, `c` cancels (`Ok(None)`),
/// and anything else is not understood.
pub open spec fn mode_choice_of(first: Option<char>) -> Result<Option<Mode>, MenuError> {
    match first {
        Some('1') => Ok(Some(Mode::TD)),
        Some('2') => Ok(Some(Mode::DM)),
        Some('3') => Ok(Some(Mode::Chaser)),
        Some('4') => Ok(Some(Mode::BR)),
        Some('5') => Ok(Some(Mode::Captain)),
        Some('6') => Ok(Some(Mode::Siege)),
        Some('c') => Ok(None),
        _ => Err(MenuError::BadResponse),
    }
}

/// Reads a trimmed answer at the mode menu by its first character.
pub fn prompt_for_mode(response: &str) -> (r: Result<Option<Mode>, MenuError>)
    ensures
        r == mode_choice_of(
            if response@.len() > 0 {
                Some(response@[0])
            } else {
                None
            },
        ),
{
    if response.unicode_len() == 0 {
        return Err(MenuError::BadResponse);
    }
    match response.get_char(0) {
        '1' => Ok(Some(Mode::TD)),
        '2' => Ok(Some(Mode::DM)),
        '3' => Ok(Some(Mode::Chaser)),
        '4' => Ok(Some(Mode::BR)),
        '5' => Ok(Some(Mode::Captain)),
        '6' => Ok(Some(Mode::Siege)),
        'c' => Ok(None),
        _ => Err(MenuError::BadResponse),
    }
}

} // verus!
