//! One guessing round: a secret number, a lives budget, an attempt counter,
//! and the per-guess state transition.

use vstd::prelude::*;

use rand::RngExt;

verus! {

/// Whether a session is still accepting guesses, or how it ended.
#[derive(Clone, Copy, PartialEq, Eq, Structural, Debug)]
pub enum SessionState {
    InProgress,
    Won,
    Lost,
}

/// The directional hint shown after a wrong guess that left lives over.
#[derive(Clone, Copy, PartialEq, Eq, Structural, Debug)]
pub enum Hint {
    Higher,
    Lower,
}

/// What one evaluated guess meant for the session.
#[derive(Clone, Copy, PartialEq, Eq, Structural, Debug)]
pub enum Outcome {
    Continue(Hint),
    Won,
    Lost,
}

/// A single round of the game, owned by the caller running it.
#[derive(Clone, Copy, PartialEq, Eq, Structural, Debug)]
pub struct GuessingSession {
    pub secret: u32,
    pub lives_remaining: u32,
    pub attempts: u32,
    pub state: SessionState,
}

impl GuessingSession {
    /// The session invariant: the secret is in range, an in-progress session
    /// has a life left and room to count another attempt, a lost session has
    /// none, and a finished session evaluated at least one guess.
    pub open spec fn wf(self) -> bool {
        &&& 1 <= self.secret <= 100
        &&& self.state is InProgress ==> self.lives_remaining >= 1 && self.attempts
            + self.lives_remaining <= u32::MAX
        &&& self.state is Lost ==> self.lives_remaining == 0
        &&& !(self.state is InProgress) ==> self.attempts >= 1
    }

    /// The session after one guess is evaluated.
    pub open spec fn spec_step(self, guess: u32) -> GuessingSession {
        if guess == self.secret {
            GuessingSession { attempts: (self.attempts + 1) as u32, state: SessionState::Won, ..self }
        } else {
            GuessingSession {
                attempts: (self.attempts + 1) as u32,
                lives_remaining: (self.lives_remaining - 1) as u32,
                state: if self.lives_remaining == 1 {
                    SessionState::Lost
                } else {
                    SessionState::InProgress
                },
                ..self
            }
        }
    }

    /// The outcome reported for one evaluated guess.
    pub open spec fn spec_outcome(self, guess: u32) -> Outcome {
        if guess == self.secret {
            Outcome::Won
        } else if self.lives_remaining == 1 {
            Outcome::Lost
        } else if guess < self.secret {
            Outcome::Continue(Hint::Higher)
        } else {
            Outcome::Continue(Hint::Lower)
        }
    }

    /// A fresh session around a known secret. The secret must lie in [1, 100]
    /// and the lives budget must be positive.
    pub fn new(secret: u32, lives: u32) -> (s: GuessingSession)
        requires
            1 <= secret <= 100,
            lives >= 1,
        ensures
            s.wf(),
            s.secret == secret,
            s.lives_remaining == lives,
            s.attempts == 0,
            s.state == SessionState::InProgress,
    {
        GuessingSession { secret, lives_remaining: lives, attempts: 0, state: SessionState::InProgress }
    }

    /// A fresh session around a secret drawn uniformly from [1, 100].
    pub fn start(lives: u32) -> (s: GuessingSession)
        requires
            lives >= 1,
        ensures
            s.wf(),
            s.lives_remaining == lives,
            s.attempts == 0,
            s.state == SessionState::InProgress,
    {
        let secret = draw_secret();
        GuessingSession::new(secret, lives)
    }

    /// Evaluates one pre-validated guess on an in-progress session: the
    /// attempt counter always grows by one; a correct guess wins and leaves
    /// the lives untouched; a wrong guess costs exactly one life, losing the
    /// session if it was the last one and otherwise yielding a directional
    /// hint.
    pub fn evaluate_guess(&mut self, guess: u32) -> (o: Outcome)
        requires
            old(self).wf(),
            old(self).state == SessionState::InProgress,
            1 <= guess <= 100,
        ensures
            final(self).wf(),
            *final(self) == old(self).spec_step(guess),
            o == old(self).spec_outcome(guess),
            final(self).attempts == old(self).attempts + 1,
            final(self).secret == old(self).secret,
            guess == old(self).secret ==> o == Outcome::Won && final(self).state == SessionState::Won
                && final(self).lives_remaining == old(self).lives_remaining,
            guess != old(self).secret ==> final(self).lives_remaining == old(self).lives_remaining
                - 1,
            guess != old(self).secret && old(self).lives_remaining == 1 ==> o == Outcome::Lost
                && final(self).state == SessionState::Lost,
            guess != old(self).secret && old(self).lives_remaining > 1 ==> final(self).state
                == SessionState::InProgress && o == Outcome::Continue(
                if guess < old(self).secret {
                    Hint::Higher
                } else {
                    Hint::Lower
                },
            ),
    {
        self.attempts = self.attempts + 1;
        if guess == self.secret {
            self.state = SessionState::Won;
            Outcome::Won
        } else {
            self.lives_remaining = self.lives_remaining - 1;
            if self.lives_remaining == 0 {
                self.state = SessionState::Lost;
                Outcome::Lost
            } else if guess < self.secret {
                Outcome::Continue(Hint::Higher)
            } else {
                Outcome::Continue(Hint::Lower)
            }
        }
    }
}

/// Relies on rand: `random_range(1..=100)` returns a value uniformly drawn
/// from that inclusive range, and never panics on a non-empty range. The
/// call aborts if the operating system's entropy source fails when the
/// thread's generator is first seeded — an environmental failure no input
/// can exclude.
#[verifier::external_body]
fn draw_secret() -> (s: u32)
    ensures
        1 <= s <= 100,
{
    rand::rng().random_range(1..=100u32)
}

/// The session after a whole sequence of guesses, evaluating each in turn
/// until the session leaves `InProgress` or the guesses run out.
pub open spec fn spec_run(s: GuessingSession, guesses: Seq<u32>) -> GuessingSession
    decreases guesses.len(),
{
    if guesses.len() == 0 || !(s.state is InProgress) {
        s
    } else {
        spec_run(s.spec_step(guesses[0]), guesses.drop_first())
    }
}

/// How many of the guesses actually get evaluated before the session ends or
/// the guesses run out.
pub open spec fn spec_evaluated(s: GuessingSession, guesses: Seq<u32>) -> nat
    decreases guesses.len(),
{
    if guesses.len() == 0 || !(s.state is InProgress) {
        0
    } else {
        1 + spec_evaluated(s.spec_step(guesses[0]), guesses.drop_first())
    }
}

/// A step preserves the session invariant.
pub proof fn lemma_step_wf(s: GuessingSession, guess: u32)
    requires
        s.wf(),
        s.state is InProgress,
    ensures
        s.spec_step(guess).wf(),
{
}

/// For any lives budget and any sequence of guesses, the attempt counter
/// after a run counts exactly the evaluated guesses.
pub proof fn lemma_attempts_count_evaluations(s: GuessingSession, guesses: Seq<u32>)
    requires
        s.wf(),
    ensures
        spec_run(s, guesses).attempts == s.attempts + spec_evaluated(s, guesses),
        spec_evaluated(s, guesses) <= guesses.len(),
        spec_run(s, guesses).wf(),
    decreases guesses.len(),
{
    if guesses.len() == 0 || !(s.state is InProgress) {
    } else {
        lemma_step_wf(s, guesses[0]);
        lemma_attempts_count_evaluations(s.spec_step(guesses[0]), guesses.drop_first());
    }
}

/// A run ends in `Lost` exactly when the lives run out before a correct
/// guess: the guesses must last at least as long as the lives budget, and
/// every guess with a life at stake must miss the secret.
pub proof fn lemma_lost_iff_lives_exhausted(s: GuessingSession, guesses: Seq<u32>)
    requires
        s.wf(),
        s.state is InProgress,
    ensures
        spec_run(s, guesses).state is Lost <==> (s.lives_remaining <= guesses.len() && forall|
            j: int,
        |
            0 <= j < s.lives_remaining ==> guesses[j] != s.secret),
    decreases guesses.len(),
{
    if guesses.len() == 0 {
    } else {
        let s1 = s.spec_step(guesses[0]);
        let rest = guesses.drop_first();
        if guesses[0] == s.secret {
            assert(spec_run(s, guesses) == s1);
        } else if s.lives_remaining == 1 {
            assert(spec_run(s, guesses) == s1);
        } else {
            lemma_step_wf(s, guesses[0]);
            lemma_lost_iff_lives_exhausted(s1, rest);
            assert(forall|j: int| 0 <= j < rest.len() ==> rest[j] == guesses[j + 1]);
            if spec_run(s1, rest).state is Lost {
                assert forall|j: int| 0 <= j < s.lives_remaining implies guesses[j] != s.secret by {
                    if j > 0 {
                        assert(guesses[j] == rest[j - 1]);
                    }
                }
            } else {
                if s.lives_remaining <= guesses.len() && forall|j: int|
                    0 <= j < s.lives_remaining ==> guesses[j] != s.secret {
                    assert forall|j: int| 0 <= j < s1.lives_remaining implies rest[j] != s1.secret by {
                        assert(rest[j] == guesses[j + 1]);
                    }
                }
            }
        }
    }
}

} // verus!
