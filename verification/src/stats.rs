//! Game results and aggregate statistics: an immutable record per finished
//! session, counters with derived metrics, and the best-score rule.

use vstd::prelude::*;

use crate::difficulty::spec_difficulty_name;
use crate::digits::{clean_char, clean_text, is_digit_char};

verus! {

/// The mathematical content of a recorded game result.
#[verifier::ext_equal]
pub ghost struct ResultModel {
    pub attempts: nat,
    pub lives_remaining: nat,
    pub won: bool,
    pub difficulty: Seq<char>,
    pub timestamp: Seq<char>,
}

/// A result as recorded: at least one attempt, counts that fit the machine
/// words, and text fields free of characters the persistence format cannot
/// carry verbatim.
pub open spec fn result_wf(r: ResultModel) -> bool {
    &&& 1 <= r.attempts <= u32::MAX
    &&& r.lives_remaining <= u32::MAX
    &&& clean_text(r.difficulty)
    &&& clean_text(r.timestamp)
}

/// One finished game, as stored in the history.
#[derive(Clone, Debug)]
pub struct GameResult {
    pub attempts: u32,
    pub lives_remaining: u32,
    pub won: bool,
    pub difficulty: String,
    pub timestamp: String,
}

impl View for GameResult {
    type V = ResultModel;

    open spec fn view(&self) -> ResultModel {
        ResultModel {
            attempts: self.attempts as nat,
            lives_remaining: self.lives_remaining as nat,
            won: self.won,
            difficulty: self.difficulty@,
            timestamp: self.timestamp@,
        }
    }
}

impl DeepView for GameResult {
    type V = ResultModel;

    open spec fn deep_view(&self) -> ResultModel {
        self.view()
    }
}

/// The mathematical content of the statistics store.
#[verifier::ext_equal]
pub ghost struct StatsModel {
    pub total_games: nat,
    pub games_won: nat,
    pub games_lost: nat,
    pub total_attempts: nat,
    pub best_score: Option<nat>,
    pub game_history: Seq<ResultModel>,
}

/// The store invariant: wins and losses partition the games, the history
/// records one result per game, a best score exists exactly when some game
/// was won, and every recorded result is itself well formed.
pub open spec fn stats_wf_model(m: StatsModel) -> bool {
    &&& m.total_games <= u32::MAX
    &&& m.total_attempts <= u32::MAX
    &&& m.games_won + m.games_lost == m.total_games
    &&& m.game_history.len() == m.total_games
    &&& (m.best_score is Some <==> m.games_won >= 1)
    &&& match m.best_score {
        Some(b) => 1 <= b <= u32::MAX,
        None => true,
    }
    &&& forall|i: int| 0 <= i < m.game_history.len() ==> result_wf(#[trigger] m.game_history[i])
}

/// The zero-value store.
pub open spec fn spec_empty_stats() -> StatsModel {
    StatsModel {
        total_games: 0,
        games_won: 0,
        games_lost: 0,
        total_attempts: 0,
        best_score: None,
        game_history: Seq::empty(),
    }
}

/// All statistics gathered over past games.
#[derive(Debug)]
pub struct GameStats {
    pub total_games: u32,
    pub games_won: u32,
    pub games_lost: u32,
    pub total_attempts: u32,
    pub best_score: Option<u32>,
    pub game_history: Vec<GameResult>,
}

impl View for GameStats {
    type V = StatsModel;

    open spec fn view(&self) -> StatsModel {
        StatsModel {
            total_games: self.total_games as nat,
            games_won: self.games_won as nat,
            games_lost: self.games_lost as nat,
            total_attempts: self.total_attempts as nat,
            best_score: match self.best_score {
                Some(b) => Some(b as nat),
                None => None,
            },
            game_history: self.game_history.deep_view(),
        }
    }
}

/// The best score after one more result: a win strictly below the current
/// best replaces it; the first win sets it; ties and losses leave it alone.
pub open spec fn spec_update_best(best: Option<nat>, won: bool, attempts: nat) -> Option<nat> {
    if won {
        match best {
            None => Some(attempts),
            Some(b) => if attempts < b {
                Some(attempts)
            } else {
                Some(b)
            },
        }
    } else {
        best
    }
}

/// The store after ingesting one result.
pub open spec fn spec_add_result(m: StatsModel, r: ResultModel) -> StatsModel {
    StatsModel {
        total_games: m.total_games + 1,
        games_won: m.games_won + if r.won {
            1nat
        } else {
            0nat
        },
        games_lost: m.games_lost + if r.won {
            0nat
        } else {
            1nat
        },
        total_attempts: m.total_attempts + r.attempts,
        best_score: spec_update_best(m.best_score, r.won, r.attempts),
        game_history: m.game_history.push(r),
    }
}

impl GameStats {
    /// The store invariant, stated over the store's mathematical content.
    pub open spec fn wf(self) -> bool {
        stats_wf_model(self@)
    }

    /// A store with all counters zero, no best score, and an empty history.
    pub fn new() -> (s: GameStats)
        ensures
            s@ == spec_empty_stats(),
            s.wf(),
    {
        let s = GameStats {
            total_games: 0,
            games_won: 0,
            games_lost: 0,
            total_attempts: 0,
            best_score: None,
            game_history: Vec::new(),
        };
        proof {
            assert(s@.game_history =~= Seq::<ResultModel>::empty());
            assert(s@ =~= spec_empty_stats());
        }
        s
    }

    /// Ingests one finished game: bumps the game and attempt totals, counts
    /// the result as a win or a loss, applies the best-score rule, and
    /// appends the result to the history.
    pub fn add_game_result(&mut self, result: GameResult)
        requires
            old(self).wf(),
            result_wf(result@),
            old(self)@.total_games < u32::MAX,
            old(self)@.total_attempts + result@.attempts <= u32::MAX,
        ensures
            final(self).wf(),
            final(self)@ == spec_add_result(old(self)@, result@),
    {
        self.total_games = self.total_games + 1;
        self.total_attempts = self.total_attempts + result.attempts;
        if result.won {
            self.games_won = self.games_won + 1;
            match self.best_score {
                Some(current_best) => {
                    if result.attempts < current_best {
                        self.best_score = Some(result.attempts);
                    }
                },
                None => {
                    self.best_score = Some(result.attempts);
                },
            }
        } else {
            self.games_lost = self.games_lost + 1;
        }
        self.game_history.push(result);
        proof {
            assert(self@.game_history =~= spec_add_result(old(self)@, result@).game_history);
            assert(self@ =~= spec_add_result(old(self)@, result@));
        }
    }

    /// The percentage of games won, rounded down, and 0 for a fresh store.
    pub fn win_rate(&self) -> (r: u32)
        requires
            self.wf(),
        ensures
            self@.total_games == 0 ==> r == 0,
            self@.total_games > 0 ==> r == (self@.games_won * 100) / self@.total_games,
            r <= 100,
    {
        if self.total_games == 0 {
            0
        } else {
            let q: u64 = (self.games_won as u64) * 100 / (self.total_games as u64);
            proof {
                assert((self@.games_won * 100) / self@.total_games <= 100) by (nonlinear_arith)
                    requires
                        self@.games_won <= self@.total_games,
                        self@.total_games >= 1,
                ;
            }
            q as u32
        }
    }

    /// The mean number of attempts per game, rounded down, and 0 for a fresh
    /// store.
    pub fn average_attempts(&self) -> (r: u32)
        requires
            self.wf(),
        ensures
            self@.total_games == 0 ==> r == 0,
            self@.total_games > 0 ==> r == self@.total_attempts / self@.total_games,
    {
        if self.total_games == 0 {
            0
        } else {
            self.total_attempts / self.total_games
        }
    }
}

/// The shape of a `YYYY-MM-DD HH:MM:SS` timestamp: a year field of digits
/// (exactly four when unsigned, and a '+' or '-' prefix only for years
/// outside 0 through 9999), then two-digit month, day, hour, minute and
/// second fields behind the fixed '-', ' ' and ':' separators.
pub open spec fn spec_timestamp_shape(s: Seq<char>) -> bool {
    let b = s.len() as int - 15;
    &&& s.len() >= 19
    &&& (is_digit_char(s[0]) || s[0] == '+' || s[0] == '-')
    &&& (is_digit_char(s[0]) ==> s.len() == 19)
    &&& (forall|i: int| 1 <= i < b ==> is_digit_char(#[trigger] s[i]))
    &&& s[b] == '-' && is_digit_char(s[b + 1]) && is_digit_char(s[b + 2])
    &&& s[b + 3] == '-' && is_digit_char(s[b + 4]) && is_digit_char(s[b + 5])
    &&& s[b + 6] == ' ' && is_digit_char(s[b + 7]) && is_digit_char(s[b + 8])
    &&& s[b + 9] == ':' && is_digit_char(s[b + 10]) && is_digit_char(s[b + 11])
    &&& s[b + 12] == ':' && is_digit_char(s[b + 13]) && is_digit_char(s[b + 14])
}

/// A shaped timestamp holds only characters the persistence format carries
/// verbatim.
pub proof fn lemma_timestamp_shape_clean(s: Seq<char>)
    requires
        spec_timestamp_shape(s),
    ensures
        clean_text(s),
{
    let b = s.len() as int - 15;
    assert forall|i: int| 0 <= i < s.len() implies clean_char(#[trigger] s[i]) by {
        if 1 <= i < b {
            assert(is_digit_char(s[i]));
        }
    }
}

/// Relies on chrono: `Utc::now().format("%Y-%m-%d %H:%M:%S")` writes the
/// year zero-padded to four digits, with a sign prefix only for years
/// outside 0 through 9999, every other field as exactly two digits, and the
/// '-', ' ' and ':' separators of the format string, whatever the clock
/// reads. The call aborts if the system clock reads before the Unix epoch —
/// an environmental failure no input can exclude.
#[verifier::external_body]
fn now_timestamp() -> (t: String)
    ensures
        spec_timestamp_shape(t@),
{
    chrono::Utc::now().format("%Y-%m-%d %H:%M:%S").to_string()
}

/// Builds the immutable record of one finished session, stamping it with the
/// current wall-clock time and the display name of the lives budget played.
pub fn create_game_result(attempts: u32, lives_remaining: u32, won: bool, lives: u32) -> (r:
    GameResult)
    requires
        attempts >= 1,
    ensures
        r@.attempts == attempts,
        r@.lives_remaining == lives_remaining,
        r@.won == won,
        r@.difficulty == spec_difficulty_name(lives as nat),
        spec_timestamp_shape(r@.timestamp),
        result_wf(r@),
{
    let timestamp = now_timestamp();
    proof {
        lemma_timestamp_shape_clean(timestamp@);
    }
    GameResult {
        attempts,
        lives_remaining,
        won,
        difficulty: crate::difficulty::get_difficulty_name(lives),
        timestamp,
    }
}

/// The total attempts over a batch of results.
pub open spec fn sum_attempts(rs: Seq<ResultModel>) -> nat
    decreases rs.len(),
{
    if rs.len() == 0 {
        0
    } else {
        rs[0].attempts + sum_attempts(rs.drop_first())
    }
}

/// How many of a batch of results were won.
pub open spec fn count_won(rs: Seq<ResultModel>) -> nat
    decreases rs.len(),
{
    if rs.len() == 0 {
        0
    } else {
        (if rs[0].won {
            1nat
        } else {
            0nat
        }) + count_won(rs.drop_first())
    }
}

/// How many of a batch of results were lost.
pub open spec fn count_lost(rs: Seq<ResultModel>) -> nat
    decreases rs.len(),
{
    if rs.len() == 0 {
        0
    } else {
        (if rs[0].won {
            0nat
        } else {
            1nat
        }) + count_lost(rs.drop_first())
    }
}

/// The store after ingesting a whole batch of results in order.
pub open spec fn spec_add_all(m: StatsModel, rs: Seq<ResultModel>) -> StatsModel
    decreases rs.len(),
{
    if rs.len() == 0 {
        m
    } else {
        spec_add_all(spec_add_result(m, rs[0]), rs.drop_first())
    }
}

/// Ingesting a batch adds one game per result, the batch's attempts, and its
/// wins and losses to the counters, and appends the batch to the history in
/// its own order.
pub proof fn lemma_add_all_totals(m: StatsModel, rs: Seq<ResultModel>)
    ensures
        spec_add_all(m, rs).total_games == m.total_games + rs.len(),
        spec_add_all(m, rs).total_attempts == m.total_attempts + sum_attempts(rs),
        spec_add_all(m, rs).games_won == m.games_won + count_won(rs),
        spec_add_all(m, rs).games_lost == m.games_lost + count_lost(rs),
        spec_add_all(m, rs).game_history == m.game_history + rs,
    decreases rs.len(),
{
    if rs.len() == 0 {
        assert(m.game_history + rs =~= m.game_history);
    } else {
        lemma_add_all_totals(spec_add_result(m, rs[0]), rs.drop_first());
        assert(m.game_history.push(rs[0]) + rs.drop_first() =~= m.game_history + rs);
    }
}

/// Removing one result takes exactly its contribution out of the tallies.
proof fn lemma_tally_remove(rs: Seq<ResultModel>, k: int)
    requires
        0 <= k < rs.len(),
    ensures
        sum_attempts(rs.remove(k)) + rs[k].attempts == sum_attempts(rs),
        count_won(rs.remove(k)) + (if rs[k].won {
            1nat
        } else {
            0nat
        }) == count_won(rs),
        count_lost(rs.remove(k)) + (if rs[k].won {
            0nat
        } else {
            1nat
        }) == count_lost(rs),
    decreases k,
{
    if k == 0 {
        assert(rs.remove(0) =~= rs.drop_first());
    } else {
        assert(rs.remove(k).drop_first() =~= rs.drop_first().remove(k - 1));
        lemma_tally_remove(rs.drop_first(), k - 1);
    }
}

/// The tallies of a batch depend only on which results it holds, not on
/// their order.
pub proof fn lemma_tally_permutation(rs1: Seq<ResultModel>, rs2: Seq<ResultModel>)
    requires
        rs1.to_multiset() == rs2.to_multiset(),
    ensures
        sum_attempts(rs1) == sum_attempts(rs2),
        count_won(rs1) == count_won(rs2),
        count_lost(rs1) == count_lost(rs2),
    decreases rs1.len(),
{
    broadcast use vstd::seq_lib::group_to_multiset_ensures;

    if rs1.len() == 0 {
        assert(rs2.len() == rs2.to_multiset().len());
    } else {
        let h = rs1[0];
        assert(rs1.contains(h));
        assert(rs2.to_multiset().count(h) > 0);
        assert(rs2.contains(h));
        let k = choose|k: int| 0 <= k < rs2.len() && rs2[k] == h;
        lemma_tally_remove(rs2, k);
        assert(rs1.remove(0) =~= rs1.drop_first());
        assert(rs1.drop_first().to_multiset() =~= rs1.to_multiset().remove(h));
        assert(rs2.remove(k).to_multiset() =~= rs2.to_multiset().remove(h));
        lemma_tally_permutation(rs1.drop_first(), rs2.remove(k));
    }
}

/// The lowest attempt count among the won results of a batch, absent when
/// none was won.
pub open spec fn spec_min_won(rs: Seq<ResultModel>) -> Option<nat>
    decreases rs.len(),
{
    if rs.len() == 0 {
        None
    } else {
        let rest = spec_min_won(rs.drop_first());
        if rs[0].won {
            match rest {
                None => Some(rs[0].attempts),
                Some(b) => if rs[0].attempts < b {
                    Some(rs[0].attempts)
                } else {
                    Some(b)
                },
            }
        } else {
            rest
        }
    }
}

/// The better of an existing best score and a batch's lowest winning
/// attempt count.
pub open spec fn spec_combine_best(a: Option<nat>, b: Option<nat>) -> Option<nat> {
    match (a, b) {
        (Option::None, x) => x,
        (x, Option::None) => x,
        (Option::Some(x), Option::Some(y)) => if x <= y {
            Some(x)
        } else {
            Some(y)
        },
    }
}

/// Ingesting a batch leaves as best score the better of the old best score
/// and the batch's lowest winning attempt count.
proof fn lemma_add_all_best(m: StatsModel, rs: Seq<ResultModel>)
    ensures
        spec_add_all(m, rs).best_score == spec_combine_best(m.best_score, spec_min_won(rs)),
    decreases rs.len(),
{
    if rs.len() == 0 {
    } else {
        lemma_add_all_best(spec_add_result(m, rs[0]), rs.drop_first());
    }
}

/// On a store built up from the zero store, the best score is exactly the
/// lowest attempt count among won games, and absent when no game was won.
pub proof fn lemma_best_score_is_lowest_win(rs: Seq<ResultModel>)
    ensures
        spec_add_all(spec_empty_stats(), rs).best_score == spec_min_won(rs),
{
    lemma_add_all_best(spec_empty_stats(), rs);
}

/// Ingesting the same results in any order yields the same game, attempt,
/// win and loss totals, while the history keeps each batch's own insertion
/// order exactly.
pub proof fn lemma_add_order_independent(m: StatsModel, rs1: Seq<ResultModel>, rs2: Seq<
    ResultModel,
>)
    requires
        rs1.to_multiset() == rs2.to_multiset(),
    ensures
        spec_add_all(m, rs1).total_games == spec_add_all(m, rs2).total_games,
        spec_add_all(m, rs1).total_attempts == spec_add_all(m, rs2).total_attempts,
        spec_add_all(m, rs1).games_won == spec_add_all(m, rs2).games_won,
        spec_add_all(m, rs1).games_lost == spec_add_all(m, rs2).games_lost,
        spec_add_all(m, rs1).game_history == m.game_history + rs1,
        spec_add_all(m, rs2).game_history == m.game_history + rs2,
{
    broadcast use vstd::seq_lib::group_to_multiset_ensures;

    lemma_add_all_totals(m, rs1);
    lemma_add_all_totals(m, rs2);
    lemma_tally_permutation(rs1, rs2);
    assert(rs1.len() == rs1.to_multiset().len());
    assert(rs2.len() == rs2.to_multiset().len());
}

} // verus!
