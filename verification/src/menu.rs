//! The screens around a round (menus, pause, game over) and how keys move
//! between them. The front end reads the keys, draws the screen and carries
//! out the action that each step hands back.

use vstd::prelude::*;
use crate::game::{easy, hard, medium, preset, DifficultyParameters, Input};

verus! {

/// Which screen is up. `GameOver` keeps the final score of the round.
#[derive(PartialEq, Eq, Structural, Clone, Copy, Debug)]
pub enum Screen {
    MainMenu,
    DifficultySelect,
    Playing,
    Paused,
    GameOver(usize),
}

/// What the front end does after a step: nothing more, quit, start a round
/// at the given difficulty, or play one tick with the given input.
#[derive(PartialEq, Eq, Structural, Clone, Copy, Debug)]
pub enum UiAction {
    Idle,
    Exit,
    StartRound(DifficultyParameters),
    Tick(Input),
}

/// How many buttons a screen shows: Play and Exit on the main menu; Easy,
/// Medium, Hard and Back when choosing a difficulty; Resume and Main Menu
/// when paused; Play Again and Main Menu after a round. None while playing.
pub open spec fn button_count(screen: Screen) -> nat {
    match screen {
        Screen::MainMenu => 2,
        Screen::DifficultySelect => 4,
        Screen::Playing => 0,
        Screen::Paused => 2,
        Screen::GameOver(_) => 2,
    }
}

/// The labels of a screen's buttons, top to bottom.
pub open spec fn labels_of(screen: Screen) -> Seq<&'static str> {
    match screen {
        Screen::MainMenu => seq!["Play", "Exit"],
        Screen::DifficultySelect => seq!["Easy", "Medium", "Hard", "Back"],
        Screen::Playing => Seq::empty(),
        Screen::Paused => seq!["Resume", "Main Menu"],
        Screen::GameOver(_) => seq!["Play Again", "Main Menu"],
    }
}

/// The labels of a screen's buttons, top to bottom.
pub fn button_labels(screen: Screen) -> (labels: Vec<&'static str>)
    ensures
        labels@ == labels_of(screen),
        labels@.len() == button_count(screen),
{
    match screen {
        Screen::MainMenu => vec!["Play", "Exit"],
        Screen::DifficultySelect => vec!["Easy", "Medium", "Hard", "Back"],
        Screen::Playing => Vec::new(),
        Screen::Paused => vec!["Resume", "Main Menu"],
        Screen::GameOver(_) => vec!["Play Again", "Main Menu"],
    }
}

/// The highlighted button after `input`: Up moves one up unless at the top,
/// Down one down unless at the bottom of `count` buttons; other keys leave
/// it.
pub open spec fn selection_after(selected: usize, input: Input, count: nat) -> usize {
    if input == Input::Up && selected > 0 {
        (selected - 1) as usize
    } else if input == Input::Down && selected + 1 < count {
        (selected + 1) as usize
    } else {
        selected
    }
}

/// What Enter on button `index` of a menu screen leads to. Main menu: Play
/// opens the difficulty choice, anything else quits. Difficulty choice: the
/// first three start a round at that preset, anything else goes back to the
/// main menu. Paused and game over: the first button goes (back) to playing,
/// anything else to the main menu.
pub open spec fn enter_on(screen: Screen, index: usize) -> (Screen, UiAction) {
    match screen {
        Screen::MainMenu => if index == 0 {
            (Screen::DifficultySelect, UiAction::Idle)
        } else {
            (Screen::MainMenu, UiAction::Exit)
        },
        Screen::DifficultySelect => if index < 3 {
            (Screen::Playing, UiAction::StartRound(preset(index as int)))
        } else {
            (Screen::MainMenu, UiAction::Idle)
        },
        Screen::Playing => (Screen::Playing, UiAction::Idle),
        Screen::Paused => if index == 0 {
            (Screen::Playing, UiAction::Idle)
        } else {
            (Screen::MainMenu, UiAction::Idle)
        },
        Screen::GameOver(_) => if index == 0 {
            (Screen::Playing, UiAction::Idle)
        } else {
            (Screen::MainMenu, UiAction::Idle)
        },
    }
}

/// One frame of the screen flow. While playing, Esc pauses and otherwise
/// the frame is a tick with the player's input (Enter does nothing). On a
/// menu the arrows move the highlight first; Enter then acts on the
/// highlighted button and puts the highlight back on the first button of
/// the next screen; Esc does nothing.
pub open spec fn menu_outcome(
    screen: Screen,
    selected: usize,
    input: Input,
    enter: bool,
    escape: bool,
) -> (Screen, usize, UiAction) {
    if screen == Screen::Playing {
        if escape {
            (Screen::Paused, selected, UiAction::Idle)
        } else {
            (Screen::Playing, selected, UiAction::Tick(input))
        }
    } else {
        let sel = selection_after(selected, input, button_count(screen));
        if enter {
            (enter_on(screen, sel).0, 0usize, enter_on(screen, sel).1)
        } else {
            (screen, sel, UiAction::Idle)
        }
    }
}

/// Menu navigation, on every menu screen and highlight: without Enter, Up
/// moves the highlight one button up unless it is on the first, Down one
/// down unless it is on the last, and any other key leaves it; the screen
/// stays and nothing else happens. Enter always puts the highlight back on
/// the first button. While playing, Esc pauses and any other frame is a tick
/// with the player's input.
pub proof fn lemma_menu_navigation(screen: Screen, selected: usize, input: Input, escape: bool)
    ensures
        screen != Screen::Playing && 0 < selected < button_count(screen) ==> menu_outcome(
            screen,
            selected,
            Input::Up,
            false,
            escape,
        ) == (screen, (selected - 1) as usize, UiAction::Idle),
        screen != Screen::Playing && selected + 1 < button_count(screen) ==> menu_outcome(
            screen,
            selected,
            Input::Down,
            false,
            escape,
        ) == (screen, (selected + 1) as usize, UiAction::Idle),
        screen != Screen::Playing ==> menu_outcome(screen, 0, Input::Up, false, escape) == (
            screen,
            0usize,
            UiAction::Idle,
        ),
        screen != Screen::Playing && selected + 1 == button_count(screen) ==> menu_outcome(
            screen,
            selected,
            Input::Down,
            false,
            escape,
        ) == (screen, selected, UiAction::Idle),
        screen != Screen::Playing && input != Input::Up && input != Input::Down ==> menu_outcome(
            screen,
            selected,
            input,
            false,
            escape,
        ) == (screen, selected, UiAction::Idle),
        screen != Screen::Playing ==> menu_outcome(screen, selected, input, true, escape).1 == 0,
        menu_outcome(Screen::Playing, selected, input, false, true) == (
            Screen::Paused,
            selected,
            UiAction::Idle,
        ),
        menu_outcome(Screen::Playing, selected, input, false, false) == (
            Screen::Playing,
            selected,
            UiAction::Tick(input),
        ),
{
}

/// Decide one frame of the screen flow from the keys pressed in it:
/// `input` (the arrow pressed, if any), Enter and Esc. See `menu_outcome`.
/// Play Again resumes playing: the front end prepares the next round as
/// soon as one ends.
pub fn menu_step(screen: Screen, selected: usize, input: Input, enter: bool, escape: bool) -> (r: (
    Screen,
    usize,
    UiAction,
))
    ensures
        r == menu_outcome(screen, selected, input, enter, escape),
{
    let count: usize = match screen {
        Screen::MainMenu => 2,
        Screen::DifficultySelect => 4,
        Screen::Playing => {
            if escape {
                return (Screen::Paused, selected, UiAction::Idle);
            } else {
                return (Screen::Playing, selected, UiAction::Tick(input));
            }
        },
        Screen::Paused => 2,
        Screen::GameOver(_) => 2,
    };
    let sel: usize = match input {
        Input::Up => if selected > 0 {
            selected - 1
        } else {
            selected
        },
        Input::Down => if selected < count - 1 {
            selected + 1
        } else {
            selected
        },
        _ => selected,
    };
    if !enter {
        return (screen, sel, UiAction::Idle);
    }
    let (next, action) = match screen {
        Screen::MainMenu => if sel == 0 {
            (Screen::DifficultySelect, UiAction::Idle)
        } else {
            (Screen::MainMenu, UiAction::Exit)
        },
        Screen::DifficultySelect => if sel == 0 {
            (Screen::Playing, UiAction::StartRound(easy()))
        } else if sel == 1 {
            (Screen::Playing, UiAction::StartRound(medium()))
        } else if sel == 2 {
            (Screen::Playing, UiAction::StartRound(hard()))
        } else {
            (Screen::MainMenu, UiAction::Idle)
        },
        _ => if sel == 0 {
            (Screen::Playing, UiAction::Idle)
        } else {
            (Screen::MainMenu, UiAction::Idle)
        },
    };
    (next, 0, action)
}

/// The screen once a round is over: game over, showing `score`, the score
/// the round stood at before the tick that ended it.
pub fn round_over(score: usize) -> (r: Screen)
    ensures
        r == Screen::GameOver(score),
{
    Screen::GameOver(score)
}

} // verus!
