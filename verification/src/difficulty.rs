//! Difficulty resolution: a chosen preset or a custom value becomes a lives
//! budget, and a lives budget has a display name.

use vstd::prelude::*;
use vstd::string::StringExecFns;

use crate::digits::{append_u32, clean_text, lemma_dec_props, lemma_digits_clean, spec_dec};

verus! {

/// The discrete difficulty choices a player can make.
#[derive(Clone, Copy, PartialEq, Eq, Structural, Debug)]
pub enum DifficultyChoice {
    Easy,
    Medium,
    Hard,
    Custom,
}

/// The lives budget of a difficulty choice; a custom choice carries its own.
pub open spec fn spec_lives_of(choice: DifficultyChoice, custom_lives: u32) -> u32 {
    match choice {
        DifficultyChoice::Easy => 10,
        DifficultyChoice::Medium => 5,
        DifficultyChoice::Hard => 3,
        DifficultyChoice::Custom => custom_lives,
    }
}

/// The display name of a lives budget.
pub open spec fn spec_difficulty_name(lives: nat) -> Seq<char> {
    if lives == 10 {
        "Easy"@
    } else if lives == 5 {
        "Medium"@
    } else if lives == 3 {
        "Hard"@
    } else {
        "Custom("@ + spec_dec(lives) + ")"@
    }
}

/// Difficulty names never contain characters the persistence format escapes.
pub proof fn lemma_difficulty_name_clean(lives: nat)
    ensures
        clean_text(spec_difficulty_name(lives)),
{
    reveal_strlit("Easy");
    reveal_strlit("Medium");
    reveal_strlit("Hard");
    reveal_strlit("Custom(");
    reveal_strlit(")");
    if lives == 10 {
    } else if lives == 5 {
    } else if lives == 3 {
    } else {
        lemma_dec_props(lives);
        lemma_digits_clean(spec_dec(lives));
        let s = "Custom("@ + spec_dec(lives) + ")"@;
        assert forall|i: int| 0 <= i < s.len() implies crate::digits::clean_char(#[trigger] s[i]) by {
            if i < "Custom("@.len() {
                assert(s[i] == "Custom("@[i]);
            } else if i < "Custom("@.len() + spec_dec(lives).len() {
                assert(s[i] == spec_dec(lives)[i - "Custom("@.len()]);
            } else {
                assert(s[i] == ")"@[i - "Custom("@.len() - spec_dec(lives).len()]);
            }
        }
    }
}

/// Maps a difficulty choice to its lives budget. A custom budget must already
/// have been validated to lie in [1, 99].
pub fn resolve_difficulty(choice: DifficultyChoice, custom_lives: u32) -> (lives: u32)
    requires
        choice is Custom ==> 1 <= custom_lives <= 99,
    ensures
        lives == spec_lives_of(choice, custom_lives),
        1 <= lives <= 99,
{
    match choice {
        DifficultyChoice::Easy => 10,
        DifficultyChoice::Medium => 5,
        DifficultyChoice::Hard => 3,
        DifficultyChoice::Custom => custom_lives,
    }
}

/// The display name of a lives budget: a preset name for the preset budgets,
/// and `Custom(N)` for any other value.
pub fn get_difficulty_name(lives: u32) -> (r: String)
    ensures
        r@ == spec_difficulty_name(lives as nat),
        clean_text(r@),
{
    proof {
        lemma_difficulty_name_clean(lives as nat);
    }
    if lives == 10 {
        String::from_str("Easy")
    } else if lives == 5 {
        String::from_str("Medium")
    } else if lives == 3 {
        String::from_str("Hard")
    } else {
        let mut s = String::from_str("Custom(");
        append_u32(&mut s, lives);
        s.append(")");
        s
    }
}

} // verus!
