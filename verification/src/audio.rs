//! Audio cues: each game event names the sound clip that accompanies it.
//! Playing a clip is a presentation concern; the caller's playback backend
//! receives these paths and decides how to render them.

use vstd::prelude::*;
use vstd::string::StringExecFns;

verus! {

/// The clip played when a new game starts.
pub fn play_start_sound() -> (p: String)
    ensures
        p@ == "assets/sounds/start.wav"@,
{
    String::from_str("assets/sounds/start.wav")
}

/// The clip played after each guess.
pub fn play_guess_sound() -> (p: String)
    ensures
        p@ == "assets/sounds/guess.wav"@,
{
    String::from_str("assets/sounds/guess.wav")
}

/// The clip played on a win.
pub fn play_win_sound() -> (p: String)
    ensures
        p@ == "assets/sounds/win.wav"@,
{
    String::from_str("assets/sounds/win.wav")
}

/// The clip played when the last life is lost.
pub fn play_game_over_sound() -> (p: String)
    ensures
        p@ == "assets/sounds/game_over.wav"@,
{
    String::from_str("assets/sounds/game_over.wav")
}

} // verus!
