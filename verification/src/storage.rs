//! The persistence format: a stable, human-readable rendering of the
//! statistics store, with a verified renderer and a parser that accepts
//! exactly the canonical renderings of well-formed stores.

use vstd::prelude::*;
use vstd::string::{StrSliceExecFns, StringExecFns};

use crate::digits::{append_u32, clean_char, clean_text, is_digit_char, spec_dec, val_of};
use crate::digits::{lemma_dec_props, lemma_val_of_prefix};
use crate::stats::{result_wf, stats_wf_model, GameResult, GameStats, ResultModel, StatsModel};

verus! {

/// The rendering of a truth value.
pub open spec fn spec_render_bool(b: bool) -> Seq<char> {
    if b {
        "true"@
    } else {
        "false"@
    }
}

/// The rendering of the optional best score.
pub open spec fn spec_render_best(best: Option<nat>) -> Seq<char> {
    match best {
        None => "null"@,
        Some(v) => spec_dec(v),
    }
}

/// The rendering of one recorded result.
pub open spec fn spec_render_entry(e: ResultModel) -> Seq<char> {
    "    {\n      \"attempts\": "@ + spec_dec(e.attempts) + ",\n      \"lives_remaining\": "@
        + spec_dec(e.lives_remaining) + ",\n      \"won\": "@ + spec_render_bool(e.won)
        + ",\n      \"difficulty\": \""@ + e.difficulty + "\""@ + ",\n      \"timestamp\": \""@
        + e.timestamp + "\""@ + "\n    }"@
}

/// The renderings of a batch of results, joined by the entry separator.
pub open spec fn spec_render_entries(h: Seq<ResultModel>) -> Seq<char>
    decreases h.len(),
{
    if h.len() == 0 {
        Seq::empty()
    } else if h.len() == 1 {
        spec_render_entry(h[0])
    } else {
        spec_render_entry(h[0]) + ",\n"@ + spec_render_entries(h.drop_first())
    }
}

/// The rendering of the whole history array.
pub open spec fn spec_render_history(h: Seq<ResultModel>) -> Seq<char> {
    if h.len() == 0 {
        "[]"@
    } else {
        "[\n"@ + spec_render_entries(h) + "\n  ]"@
    }
}

/// The canonical rendering of a statistics store.
pub open spec fn spec_render_stats(m: StatsModel) -> Seq<char> {
    "{\n  \"total_games\": "@ + spec_dec(m.total_games) + ",\n  \"games_won\": "@ + spec_dec(
        m.games_won,
    ) + ",\n  \"games_lost\": "@ + spec_dec(m.games_lost) + ",\n  \"total_attempts\": "@
        + spec_dec(m.total_attempts) + ",\n  \"best_score\": "@ + spec_render_best(m.best_score)
        + ",\n  \"game_history\": "@ + spec_render_history(m.game_history) + "\n}"@
}

/// Appending one more result extends the joined renderings at their end.
proof fn lemma_entries_snoc(h: Seq<ResultModel>, e: ResultModel)
    ensures
        spec_render_entries(h.push(e)) == if h.len() == 0 {
            spec_render_entry(e)
        } else {
            spec_render_entries(h) + ",\n"@ + spec_render_entry(e)
        },
    decreases h.len(),
{
    let p = h.push(e);
    assert(p[0] == if h.len() == 0 {
        e
    } else {
        h[0]
    });
    if h.len() == 0 {
    } else {
        assert(p.drop_first() =~= h.drop_first().push(e));
        lemma_entries_snoc(h.drop_first(), e);
        if h.len() == 1 {
            assert(h.drop_first().len() == 0);
        } else {
            assert(spec_render_entry(h[0]) + ",\n"@ + (spec_render_entries(h.drop_first())
                + ",\n"@ + spec_render_entry(e)) =~= spec_render_entries(h) + ",\n"@
                + spec_render_entry(e));
        }
    }
}

/// Appends the rendering of one result to `out`.
fn render_entry_into(out: &mut String, e: &GameResult)
    ensures
        final(out)@ == old(out)@ + spec_render_entry(e@),
{
    out.append("    {\n      \"attempts\": ");
    append_u32(out, e.attempts);
    out.append(",\n      \"lives_remaining\": ");
    append_u32(out, e.lives_remaining);
    out.append(",\n      \"won\": ");
    if e.won {
        out.append("true");
    } else {
        out.append("false");
    }
    out.append(",\n      \"difficulty\": \"");
    out.append(e.difficulty.as_str());
    out.append("\"");
    out.append(",\n      \"timestamp\": \"");
    out.append(e.timestamp.as_str());
    out.append("\"");
    out.append("\n    }");
    proof {
        assert(final(out)@ =~= old(out)@ + spec_render_entry(e@));
    }
}

/// Appends the rendering of the whole history array to `out`.
fn render_history_into(out: &mut String, h: &Vec<GameResult>)
    ensures
        final(out)@ == old(out)@ + spec_render_history(h.deep_view()),
{
    let ghost hm = h.deep_view();
    if h.len() == 0 {
        out.append("[]");
        proof {
            assert(final(out)@ =~= old(out)@ + spec_render_history(hm));
        }
    } else {
        out.append("[\n");
        let ghost base = out@;
        let mut i: usize = 0;
        while i < h.len()
            invariant
                i <= h.len(),
                h.deep_view() == hm,
                hm.len() == h.len(),
                out@ == base + spec_render_entries(hm.take(i as int)),
            decreases h.len() - i,
        {
            if i > 0 {
                out.append(",\n");
            }
            let e = vstd::std_specs::vec::vec_index(h, i);
            render_entry_into(out, e);
            proof {
                assert(hm.take(i + 1 as int) =~= hm.take(i as int).push(hm[i as int]));
                lemma_entries_snoc(hm.take(i as int), hm[i as int]);
                assert(e@ == hm[i as int]);
            }
            i = i + 1;
        }
        out.append("\n  ]");
        proof {
            assert(hm.take(hm.len() as int) =~= hm);
            assert(final(out)@ =~= old(out)@ + spec_render_history(hm));
        }
    }
}

/// The literal `lit` occurs in `t` at position `i`.
pub open spec fn lit_at(t: Seq<char>, i: int, lit: Seq<char>) -> bool {
    0 <= i && i + lit.len() <= t.len() && t.subrange(i, i + lit.len()) == lit
}

/// The canonical decimal rendering of `v` occurs at position `i`, followed by
/// the end of `t` or a non-digit, so no longer number starts there.
pub open spec fn num_at(t: Seq<char>, i: int, v: nat) -> bool {
    lit_at(t, i, spec_dec(v)) && (i + spec_dec(v).len() == t.len() || !is_digit_char(
        t[i + spec_dec(v).len()],
    ))
}

/// The clean text `txt` occurs at position `i`, closed by a quote.
pub open spec fn text_at(t: Seq<char>, i: int, txt: Seq<char>) -> bool {
    clean_text(txt) && 0 <= i && i + txt.len() < t.len() && t.subrange(i, i + txt.len()) == txt
        && t[i + txt.len()] == '"'
}

/// An occurrence of a concatenation splits into occurrences of its parts.
proof fn lemma_lit_at_split(t: Seq<char>, i: int, a: Seq<char>, b: Seq<char>)
    requires
        lit_at(t, i, a + b),
    ensures
        lit_at(t, i, a),
        lit_at(t, i + a.len(), b),
{
    assert forall|q: int| 0 <= q < a.len() implies t.subrange(i, i + a.len())[q] == a[q] by {
        assert((a + b)[q] == a[q]);
        assert(t.subrange(i, i + (a + b).len())[q] == t[i + q]);
    }
    assert(t.subrange(i, i + a.len()) =~= a);
    assert forall|q: int|
        0 <= q < b.len() implies t.subrange(i + a.len(), i + a.len() + b.len())[q] == b[q] by {
        assert((a + b)[a.len() + q] == b[q]);
        assert(t.subrange(i, i + (a + b).len())[a.len() + q] == t[i + a.len() + q]);
    }
    assert(t.subrange(i + a.len(), i + a.len() + b.len()) =~= b);
}

/// A digit character's value is its distance from the code of '0'.
proof fn lemma_digit_val_code(c: char)
    requires
        is_digit_char(c),
    ensures
        crate::digits::digit_val(c) == c as u32 - 0x30,
{
}

/// Checks for the literal `lit` at position `i` of `s`.
fn expect_lit(s: &str, i: usize, lit: &str) -> (r: Option<usize>)
    requires
        i <= s@.len(),
    ensures
        match r {
            Some(j) => j == i + lit@.len() && i + lit@.len() <= s@.len() && lit_at(
                s@,
                i as int,
                lit@,
            ),
            None => !lit_at(s@, i as int, lit@),
        },
{
    let n = lit.unicode_len();
    let m = s.unicode_len();
    if n > m - i {
        return None;
    }
    let mut k: usize = 0;
    while k < n
        invariant
            k <= n,
            i + n <= m,
            m == s@.len(),
            n == lit@.len(),
            forall|q: int| 0 <= q < k ==> s@[i + q] == lit@[q],
        decreases n - k,
    {
        if s.get_char(i + k) != lit.get_char(k) {
            proof {
                if lit_at(s@, i as int, lit@) {
                    assert(s@.subrange(i as int, i + lit@.len())[k as int] == lit@[k as int]);
                }
            }
            return None;
        }
        k = k + 1;
    }
    proof {
        assert(s@.subrange(i as int, i + lit@.len()) =~= lit@);
    }
    Some(i + n)
}

/// Reads a run of digits at position `i` of `s` as a number. Wherever a
/// canonical rendering of some `v` stands at `i`, this returns exactly `v`
/// and the position just past it.
fn parse_num(s: &str, i: usize) -> (r: Option<(u32, usize)>)
    requires
        i <= s@.len(),
    ensures
        match r {
            Some((v, j)) => i < j <= s@.len(),
            None => true,
        },
        forall|v: nat|
            #[trigger] num_at(s@, i as int, v) && v <= u32::MAX ==> match r {
                Some((rv, rj)) => rv == v && rj == i + spec_dec(v).len(),
                None => false,
            },
{
    let m = s.unicode_len();
    let mut j: usize = i;
    let mut val: u64 = 0;
    loop
        invariant
            i <= j <= m,
            m == s@.len(),
            val == val_of(s@.subrange(i as int, j as int)),
            val <= u32::MAX,
            forall|q: int| i <= q < j ==> is_digit_char(#[trigger] s@[q]),
            forall|v: nat|
                #[trigger] num_at(s@, i as int, v) && v <= u32::MAX ==> j <= i + spec_dec(
                    v,
                ).len(),
        ensures
            i <= j <= m,
            val == val_of(s@.subrange(i as int, j as int)),
            val <= u32::MAX,
            forall|q: int| i <= q < j ==> is_digit_char(#[trigger] s@[q]),
            forall|v: nat|
                #[trigger] num_at(s@, i as int, v) && v <= u32::MAX ==> j <= i + spec_dec(
                    v,
                ).len(),
            j == m || !is_digit_char(s@[j as int]),
        decreases m - j,
    {
        if j >= m {
            break ;
        }
        let c = s.get_char(j);
        let cu = c as u32;
        if !(0x30 <= cu && cu <= 0x39) {
            break ;
        }
        let d: u64 = (cu - 0x30) as u64;
        proof {
            lemma_digit_val_code(c);
            assert(s@.subrange(i as int, j + 1 as int).drop_last() =~= s@.subrange(
                i as int,
                j as int,
            ));
            assert(s@.subrange(i as int, j + 1 as int).last() == s@[j as int]);
            assert forall|v: nat| #[trigger] num_at(s@, i as int, v) && v <= u32::MAX implies j
                < i + spec_dec(v).len() by {
                lemma_dec_props(v);
            }
        }
        let next: u64 = val * 10 + d;
        proof {
            assert forall|v: nat| #[trigger] num_at(s@, i as int, v) && v <= u32::MAX implies next
                <= v by {
                lemma_dec_props(v);
                assert(s@.subrange(i as int, j + 1 as int) =~= spec_dec(v).subrange(
                    0,
                    j + 1 - i,
                ));
                lemma_val_of_prefix(spec_dec(v), j + 1 - i);
                assert(next == val_of(spec_dec(v).subrange(0, j + 1 - i)));
            }
        }
        if next > 0xFFFF_FFFFu64 {
            return None;
        }
        val = next;
        j = j + 1;
    }
    if j == i {
        proof {
            assert forall|v: nat| !(#[trigger] num_at(s@, i as int, v) && v <= u32::MAX) by {
                if num_at(s@, i as int, v) && v <= u32::MAX {
                    lemma_dec_props(v);
                    assert(s@.subrange(i as int, i + spec_dec(v).len())[0] == spec_dec(v)[0]);
                    assert(is_digit_char(s@[i as int]));
                }
            }
        }
        return None;
    }
    proof {
        assert forall|v: nat| #[trigger] num_at(s@, i as int, v) && v <= u32::MAX implies val
            == v && j == i + spec_dec(v).len() by {
            lemma_dec_props(v);
            if j < i + spec_dec(v).len() {
                assert(s@.subrange(i as int, i + spec_dec(v).len())[j - i] == spec_dec(v)[j - i]);
                assert(is_digit_char(s@[j as int]));
                assert(false);
            }
            assert(j == i + spec_dec(v).len());
            assert(s@.subrange(i as int, j as int) =~= spec_dec(v));
        }
    }
    Some((val as u32, j))
}

/// Reads characters at position `i` of `s` up to a closing quote. Wherever a
/// clean quoted text stands at `i`, this returns exactly that text and the
/// position just past its closing quote.
fn parse_text(s: &str, i: usize) -> (r: Option<(String, usize)>)
    requires
        i <= s@.len(),
    ensures
        match r {
            Some((txt, j)) => i < j <= s@.len() && clean_text(txt@) && j == i + txt@.len() + 1,
            None => true,
        },
        forall|t0: Seq<char>|
            #[trigger] text_at(s@, i as int, t0) ==> match r {
                Some((txt, j)) => txt@ == t0 && j == i + t0.len() + 1,
                None => false,
            },
{
    let m = s.unicode_len();
    let mut j: usize = i;
    loop
        invariant
            i <= j <= m,
            m == s@.len(),
            forall|q: int| i <= q < j ==> clean_char(#[trigger] s@[q]),
        decreases m - j,
    {
        if j >= m {
            proof {
                assert forall|t0: Seq<char>| !(#[trigger] text_at(s@, i as int, t0)) by {
                    if text_at(s@, i as int, t0) {
                        assert(clean_char(s@[i + t0.len()]) == false);
                        assert(i + t0.len() < j);
                        assert(clean_char(s@[i + t0.len()]));
                    }
                }
            }
            return None;
        }
        let c = s.get_char(j);
        let cu = c as u32;
        if cu == 0x22 {
            let sub = s.substring_char(i, j);
            let txt = String::from_str(sub);
            proof {
                assert forall|t0: Seq<char>| #[trigger] text_at(s@, i as int, t0) implies txt@
                    == t0 && j + 1 == i + t0.len() + 1 by {
                    if i + t0.len() < j {
                        assert(clean_char(s@[i + t0.len()]));
                    }
                    if j < i + t0.len() {
                        assert(s@[j as int] == t0[j - i]);
                        assert(clean_char(t0[j - i]));
                    }
                    assert(j == i + t0.len());
                    assert(txt@ =~= t0);
                }
            }
            return Some((txt, j + 1));
        }
        if !(0x20 <= cu && cu <= 0x7e && cu != 0x5c) {
            proof {
                assert forall|t0: Seq<char>| !(#[trigger] text_at(s@, i as int, t0)) by {
                    if text_at(s@, i as int, t0) {
                        if i + t0.len() < j {
                            assert(clean_char(s@[i + t0.len()]));
                        }
                        if j < i + t0.len() {
                            assert(s@[j as int] == t0[j - i]);
                            assert(clean_char(t0[j - i]));
                        }
                    }
                }
            }
            return None;
        }
        j = j + 1;
    }
}

/// Reads a rendered truth value at position `i` of `s`.
fn parse_bool(s: &str, i: usize) -> (r: Option<(bool, usize)>)
    requires
        i <= s@.len(),
    ensures
        match r {
            Some((b, j)) => i < j <= s@.len(),
            None => true,
        },
        forall|b: bool|
            #[trigger] lit_at(s@, i as int, spec_render_bool(b)) ==> match r {
                Some((rb, rj)) => rb == b && rj == i + spec_render_bool(b).len(),
                None => false,
            },
{
    proof {
        reveal_strlit("true");
        reveal_strlit("false");
    }
    match expect_lit(s, i, "true") {
        Some(j) => {
            proof {
                if lit_at(s@, i as int, "false"@) {
                    assert(s@.subrange(i as int, i + "true"@.len())[0] == "true"@[0]);
                    assert(s@.subrange(i as int, i + "false"@.len())[0] == "false"@[0]);
                }
            }
            Some((true, j))
        },
        None => match expect_lit(s, i, "false") {
            Some(j) => Some((false, j)),
            None => None,
        },
    }
}

/// A well-formed result whose rendering occurs at position `i`.
spec fn entry_at(t: Seq<char>, i: int, e: ResultModel) -> bool {
    result_wf(e) && lit_at(t, i, spec_render_entry(e))
}

spec fn eo_attempts(e: ResultModel) -> int {
    "    {\n      \"attempts\": "@.len() as int
}

spec fn eo_lives_lit(e: ResultModel) -> int {
    eo_attempts(e) + spec_dec(e.attempts).len()
}

spec fn eo_lives(e: ResultModel) -> int {
    eo_lives_lit(e) + ",\n      \"lives_remaining\": "@.len()
}

spec fn eo_won_lit(e: ResultModel) -> int {
    eo_lives(e) + spec_dec(e.lives_remaining).len()
}

spec fn eo_won(e: ResultModel) -> int {
    eo_won_lit(e) + ",\n      \"won\": "@.len()
}

spec fn eo_diff_lit(e: ResultModel) -> int {
    eo_won(e) + spec_render_bool(e.won).len()
}

spec fn eo_diff(e: ResultModel) -> int {
    eo_diff_lit(e) + ",\n      \"difficulty\": \""@.len()
}

spec fn eo_ts_lit(e: ResultModel) -> int {
    eo_diff(e) + e.difficulty.len() + 1
}

spec fn eo_ts(e: ResultModel) -> int {
    eo_ts_lit(e) + ",\n      \"timestamp\": \""@.len()
}

spec fn eo_close(e: ResultModel) -> int {
    eo_ts(e) + e.timestamp.len() + 1
}

/// An occurrence of a rendered result decomposes into occurrences of its
/// pieces, each at its own offset, in the shape the parser consumes them.
proof fn lemma_entry_at_parts(t: Seq<char>, i: int, e: ResultModel)
    requires
        entry_at(t, i, e),
    ensures
        lit_at(t, i, "    {\n      \"attempts\": "@),
        num_at(t, i + eo_attempts(e), e.attempts),
        lit_at(t, i + eo_lives_lit(e), ",\n      \"lives_remaining\": "@),
        num_at(t, i + eo_lives(e), e.lives_remaining),
        lit_at(t, i + eo_won_lit(e), ",\n      \"won\": "@),
        lit_at(t, i + eo_won(e), spec_render_bool(e.won)),
        lit_at(t, i + eo_diff_lit(e), ",\n      \"difficulty\": \""@),
        text_at(t, i + eo_diff(e), e.difficulty),
        lit_at(t, i + eo_ts_lit(e), ",\n      \"timestamp\": \""@),
        text_at(t, i + eo_ts(e), e.timestamp),
        lit_at(t, i + eo_close(e), "\n    }"@),
        spec_render_entry(e).len() == eo_close(e) + "\n    }"@.len(),
{
    let a1 = "    {\n      \"attempts\": "@;
    let d1 = spec_dec(e.attempts);
    let a2 = ",\n      \"lives_remaining\": "@;
    let d2 = spec_dec(e.lives_remaining);
    let a3 = ",\n      \"won\": "@;
    let wb = spec_render_bool(e.won);
    let a4 = ",\n      \"difficulty\": \""@;
    let df = e.difficulty;
    let qt = "\""@;
    let a5 = ",\n      \"timestamp\": \""@;
    let ts = e.timestamp;
    let a6 = "\n    }"@;
    lemma_lit_at_split(t, i, a1 + d1 + a2 + d2 + a3 + wb + a4 + df + qt + a5 + ts + qt, a6);
    lemma_lit_at_split(t, i, a1 + d1 + a2 + d2 + a3 + wb + a4 + df + qt + a5 + ts, qt);
    lemma_lit_at_split(t, i, a1 + d1 + a2 + d2 + a3 + wb + a4 + df + qt + a5, ts);
    lemma_lit_at_split(t, i, a1 + d1 + a2 + d2 + a3 + wb + a4 + df + qt, a5);
    lemma_lit_at_split(t, i, a1 + d1 + a2 + d2 + a3 + wb + a4 + df, qt);
    lemma_lit_at_split(t, i, a1 + d1 + a2 + d2 + a3 + wb + a4, df);
    lemma_lit_at_split(t, i, a1 + d1 + a2 + d2 + a3 + wb, a4);
    lemma_lit_at_split(t, i, a1 + d1 + a2 + d2 + a3, wb);
    lemma_lit_at_split(t, i, a1 + d1 + a2 + d2, a3);
    lemma_lit_at_split(t, i, a1 + d1 + a2, d2);
    lemma_lit_at_split(t, i, a1 + d1, a2);
    lemma_lit_at_split(t, i, a1, d1);
    reveal_strlit(",\n      \"lives_remaining\": ");
    reveal_strlit(",\n      \"won\": ");
    reveal_strlit("\"");
    assert(t.subrange(i + eo_lives_lit(e), i + eo_lives_lit(e) + a2.len())[0] == a2[0]);
    assert(!is_digit_char(t[i + eo_lives_lit(e)]));
    assert(t.subrange(i + eo_won_lit(e), i + eo_won_lit(e) + a3.len())[0] == a3[0]);
    assert(!is_digit_char(t[i + eo_won_lit(e)]));
    assert(t.subrange(i + eo_diff(e) + df.len(), i + eo_diff(e) + df.len() + qt.len())[0] == qt[0]);
    assert(t[i + eo_diff(e) + df.len()] == '"');
    assert(t.subrange(i + eo_ts(e) + ts.len(), i + eo_ts(e) + ts.len() + qt.len())[0] == qt[0]);
    assert(t[i + eo_ts(e) + ts.len()] == '"');
}

/// Reads one rendered result at position `i` of `s`. Wherever a well-formed
/// result's rendering stands at `i`, this returns exactly that result.
#[verifier::rlimit(100)]
fn parse_entry(s: &str, i: usize) -> (r: Option<(GameResult, usize)>)
    requires
        i <= s@.len(),
    ensures
        match r {
            Some((e, j)) => i < j <= s@.len(),
            None => true,
        },
        forall|em: ResultModel|
            #[trigger] entry_at(s@, i as int, em) ==> match r {
                Some((res, j)) => res@ == em && j == i + spec_render_entry(em).len(),
                None => false,
            },
{
    let j1 = match expect_lit(s, i, "    {\n      \"attempts\": ") {
        Some(j) => j,
        None => {
            proof {
                assert forall|em: ResultModel| !(#[trigger] entry_at(s@, i as int, em)) by {
                    if entry_at(s@, i as int, em) {
                        lemma_entry_at_parts(s@, i as int, em);
                    }
                }
            }
            return None;
        },
    };
    let (attempts, j2) = match parse_num(s, j1) {
        Some(p) => p,
        None => {
            proof {
                assert forall|em: ResultModel| !(#[trigger] entry_at(s@, i as int, em)) by {
                    if entry_at(s@, i as int, em) {
                        lemma_entry_at_parts(s@, i as int, em);
                        assert(j1 == i + eo_attempts(em));
                        assert(num_at(s@, j1 as int, em.attempts));
                        assert(em.attempts <= u32::MAX);
                    }
                }
            }
            return None;
        },
    };
    let j3 = match expect_lit(s, j2, ",\n      \"lives_remaining\": ") {
        Some(j) => j,
        None => {
            proof {
                assert forall|em: ResultModel| !(#[trigger] entry_at(s@, i as int, em)) by {
                    if entry_at(s@, i as int, em) {
                        lemma_entry_at_parts(s@, i as int, em);
                        assert(j1 == i + eo_attempts(em));
                        assert(num_at(s@, j1 as int, em.attempts));
                        assert(em.attempts <= u32::MAX);
                        assert(attempts == em.attempts && j2 == i + eo_lives_lit(em));
                        assert(lit_at(s@, j2 as int, ",\n      \"lives_remaining\": "@));
                    }
                }
            }
            return None;
        },
    };
    let (lives, j4) = match parse_num(s, j3) {
        Some(p) => p,
        None => {
            proof {
                assert forall|em: ResultModel| !(#[trigger] entry_at(s@, i as int, em)) by {
                    if entry_at(s@, i as int, em) {
                        lemma_entry_at_parts(s@, i as int, em);
                        assert(j1 == i + eo_attempts(em));
                        assert(num_at(s@, j1 as int, em.attempts));
                        assert(em.attempts <= u32::MAX);
                        assert(attempts == em.attempts && j2 == i + eo_lives_lit(em));
                        assert(lit_at(s@, j2 as int, ",\n      \"lives_remaining\": "@));
                        assert(j3 == i + eo_lives(em));
                        assert(num_at(s@, j3 as int, em.lives_remaining));
                        assert(em.lives_remaining <= u32::MAX);
                    }
                }
            }
            return None;
        },
    };
    let j5 = match expect_lit(s, j4, ",\n      \"won\": ") {
        Some(j) => j,
        None => {
            proof {
                assert forall|em: ResultModel| !(#[trigger] entry_at(s@, i as int, em)) by {
                    if entry_at(s@, i as int, em) {
                        lemma_entry_at_parts(s@, i as int, em);
                        assert(j1 == i + eo_attempts(em));
                        assert(num_at(s@, j1 as int, em.attempts));
                        assert(em.attempts <= u32::MAX);
                        assert(attempts == em.attempts && j2 == i + eo_lives_lit(em));
                        assert(lit_at(s@, j2 as int, ",\n      \"lives_remaining\": "@));
                        assert(j3 == i + eo_lives(em));
                        assert(num_at(s@, j3 as int, em.lives_remaining));
                        assert(em.lives_remaining <= u32::MAX);
                        assert(lives == em.lives_remaining && j4 == i + eo_won_lit(em));
                        assert(lit_at(s@, j4 as int, ",\n      \"won\": "@));
                    }
                }
            }
            return None;
        },
    };
    let (won, j6) = match parse_bool(s, j5) {
        Some(p) => p,
        None => {
            proof {
                assert forall|em: ResultModel| !(#[trigger] entry_at(s@, i as int, em)) by {
                    if entry_at(s@, i as int, em) {
                        lemma_entry_at_parts(s@, i as int, em);
                        assert(j1 == i + eo_attempts(em));
                        assert(num_at(s@, j1 as int, em.attempts));
                        assert(em.attempts <= u32::MAX);
                        assert(attempts == em.attempts && j2 == i + eo_lives_lit(em));
                        assert(lit_at(s@, j2 as int, ",\n      \"lives_remaining\": "@));
                        assert(j3 == i + eo_lives(em));
                        assert(num_at(s@, j3 as int, em.lives_remaining));
                        assert(em.lives_remaining <= u32::MAX);
                        assert(lives == em.lives_remaining && j4 == i + eo_won_lit(em));
                        assert(lit_at(s@, j4 as int, ",\n      \"won\": "@));
                        assert(j5 == i + eo_won(em));
                        assert(lit_at(s@, j5 as int, spec_render_bool(em.won)));
                    }
                }
            }
            return None;
        },
    };
    let j7 = match expect_lit(s, j6, ",\n      \"difficulty\": \"") {
        Some(j) => j,
        None => {
            proof {
                assert forall|em: ResultModel| !(#[trigger] entry_at(s@, i as int, em)) by {
                    if entry_at(s@, i as int, em) {
                        lemma_entry_at_parts(s@, i as int, em);
                        assert(j1 == i + eo_attempts(em));
                        assert(num_at(s@, j1 as int, em.attempts));
                        assert(em.attempts <= u32::MAX);
                        assert(attempts == em.attempts && j2 == i + eo_lives_lit(em));
                        assert(lit_at(s@, j2 as int, ",\n      \"lives_remaining\": "@));
                        assert(j3 == i + eo_lives(em));
                        assert(num_at(s@, j3 as int, em.lives_remaining));
                        assert(em.lives_remaining <= u32::MAX);
                        assert(lives == em.lives_remaining && j4 == i + eo_won_lit(em));
                        assert(lit_at(s@, j4 as int, ",\n      \"won\": "@));
                        assert(j5 == i + eo_won(em));
                        assert(lit_at(s@, j5 as int, spec_render_bool(em.won)));
                        assert(won == em.won && j6 == i + eo_diff_lit(em));
                        assert(lit_at(s@, j6 as int, ",\n      \"difficulty\": \""@));
                    }
                }
            }
            return None;
        },
    };
    let (difficulty, j8) = match parse_text(s, j7) {
        Some(p) => p,
        None => {
            proof {
                assert forall|em: ResultModel| !(#[trigger] entry_at(s@, i as int, em)) by {
                    if entry_at(s@, i as int, em) {
                        lemma_entry_at_parts(s@, i as int, em);
                        assert(j1 == i + eo_attempts(em));
                        assert(num_at(s@, j1 as int, em.attempts));
                        assert(em.attempts <= u32::MAX);
                        assert(attempts == em.attempts && j2 == i + eo_lives_lit(em));
                        assert(lit_at(s@, j2 as int, ",\n      \"lives_remaining\": "@));
                        assert(j3 == i + eo_lives(em));
                        assert(num_at(s@, j3 as int, em.lives_remaining));
                        assert(em.lives_remaining <= u32::MAX);
                        assert(lives == em.lives_remaining && j4 == i + eo_won_lit(em));
                        assert(lit_at(s@, j4 as int, ",\n      \"won\": "@));
                        assert(j5 == i + eo_won(em));
                        assert(lit_at(s@, j5 as int, spec_render_bool(em.won)));
                        assert(won == em.won && j6 == i + eo_diff_lit(em));
                        assert(lit_at(s@, j6 as int, ",\n      \"difficulty\": \""@));
                        assert(j7 == i + eo_diff(em));
                        assert(text_at(s@, j7 as int, em.difficulty));
                    }
                }
            }
            return None;
        },
    };
    let j9 = match expect_lit(s, j8, ",\n      \"timestamp\": \"") {
        Some(j) => j,
        None => {
            proof {
                assert forall|em: ResultModel| !(#[trigger] entry_at(s@, i as int, em)) by {
                    if entry_at(s@, i as int, em) {
                        lemma_entry_at_parts(s@, i as int, em);
                        assert(j1 == i + eo_attempts(em));
                        assert(num_at(s@, j1 as int, em.attempts));
                        assert(em.attempts <= u32::MAX);
                        assert(attempts == em.attempts && j2 == i + eo_lives_lit(em));
                        assert(lit_at(s@, j2 as int, ",\n      \"lives_remaining\": "@));
                        assert(j3 == i + eo_lives(em));
                        assert(num_at(s@, j3 as int, em.lives_remaining));
                        assert(em.lives_remaining <= u32::MAX);
                        assert(lives == em.lives_remaining && j4 == i + eo_won_lit(em));
                        assert(lit_at(s@, j4 as int, ",\n      \"won\": "@));
                        assert(j5 == i + eo_won(em));
                        assert(lit_at(s@, j5 as int, spec_render_bool(em.won)));
                        assert(won == em.won && j6 == i + eo_diff_lit(em));
                        assert(lit_at(s@, j6 as int, ",\n      \"difficulty\": \""@));
                        assert(j7 == i + eo_diff(em));
                        assert(text_at(s@, j7 as int, em.difficulty));
                        assert(difficulty@ == em.difficulty && j8 == i + eo_ts_lit(em));
                        assert(lit_at(s@, j8 as int, ",\n      \"timestamp\": \""@));
                    }
                }
            }
            return None;
        },
    };
    let (timestamp, j10) = match parse_text(s, j9) {
        Some(p) => p,
        None => {
            proof {
                assert forall|em: ResultModel| !(#[trigger] entry_at(s@, i as int, em)) by {
                    if entry_at(s@, i as int, em) {
                        lemma_entry_at_parts(s@, i as int, em);
                        assert(j1 == i + eo_attempts(em));
                        assert(num_at(s@, j1 as int, em.attempts));
                        assert(em.attempts <= u32::MAX);
                        assert(attempts == em.attempts && j2 == i + eo_lives_lit(em));
                        assert(lit_at(s@, j2 as int, ",\n      \"lives_remaining\": "@));
                        assert(j3 == i + eo_lives(em));
                        assert(num_at(s@, j3 as int, em.lives_remaining));
                        assert(em.lives_remaining <= u32::MAX);
                        assert(lives == em.lives_remaining && j4 == i + eo_won_lit(em));
                        assert(lit_at(s@, j4 as int, ",\n      \"won\": "@));
                        assert(j5 == i + eo_won(em));
                        assert(lit_at(s@, j5 as int, spec_render_bool(em.won)));
                        assert(won == em.won && j6 == i + eo_diff_lit(em));
                        assert(lit_at(s@, j6 as int, ",\n      \"difficulty\": \""@));
                        assert(j7 == i + eo_diff(em));
                        assert(text_at(s@, j7 as int, em.difficulty));
                        assert(difficulty@ == em.difficulty && j8 == i + eo_ts_lit(em));
                        assert(lit_at(s@, j8 as int, ",\n      \"timestamp\": \""@));
                        assert(j9 == i + eo_ts(em));
                        assert(text_at(s@, j9 as int, em.timestamp));
                    }
                }
            }
            return None;
        },
    };
    let j11 = match expect_lit(s, j10, "\n    }") {
        Some(j) => j,
        None => {
            proof {
                assert forall|em: ResultModel| !(#[trigger] entry_at(s@, i as int, em)) by {
                    if entry_at(s@, i as int, em) {
                        lemma_entry_at_parts(s@, i as int, em);
                        assert(j1 == i + eo_attempts(em));
                        assert(num_at(s@, j1 as int, em.attempts));
                        assert(em.attempts <= u32::MAX);
                        assert(attempts == em.attempts && j2 == i + eo_lives_lit(em));
                        assert(lit_at(s@, j2 as int, ",\n      \"lives_remaining\": "@));
                        assert(j3 == i + eo_lives(em));
                        assert(num_at(s@, j3 as int, em.lives_remaining));
                        assert(em.lives_remaining <= u32::MAX);
                        assert(lives == em.lives_remaining && j4 == i + eo_won_lit(em));
                        assert(lit_at(s@, j4 as int, ",\n      \"won\": "@));
                        assert(j5 == i + eo_won(em));
                        assert(lit_at(s@, j5 as int, spec_render_bool(em.won)));
                        assert(won == em.won && j6 == i + eo_diff_lit(em));
                        assert(lit_at(s@, j6 as int, ",\n      \"difficulty\": \""@));
                        assert(j7 == i + eo_diff(em));
                        assert(text_at(s@, j7 as int, em.difficulty));
                        assert(difficulty@ == em.difficulty && j8 == i + eo_ts_lit(em));
                        assert(lit_at(s@, j8 as int, ",\n      \"timestamp\": \""@));
                        assert(j9 == i + eo_ts(em));
                        assert(text_at(s@, j9 as int, em.timestamp));
                        assert(timestamp@ == em.timestamp && j10 == i + eo_close(em));
                        assert(lit_at(s@, j10 as int, "\n    }"@));
                    }
                }
            }
            return None;
        },
    };
    let res = GameResult { attempts, lives_remaining: lives, won, difficulty, timestamp };
    proof {
        assert forall|em: ResultModel| #[trigger] entry_at(s@, i as int, em) implies res@ == em
            && j11 == i + spec_render_entry(em).len() by {
            lemma_entry_at_parts(s@, i as int, em);
            assert(j1 == i + eo_attempts(em));
            assert(num_at(s@, j1 as int, em.attempts));
            assert(em.attempts <= u32::MAX);
            assert(attempts == em.attempts && j2 == i + eo_lives_lit(em));
            assert(lit_at(s@, j2 as int, ",\n      \"lives_remaining\": "@));
            assert(j3 == i + eo_lives(em));
            assert(num_at(s@, j3 as int, em.lives_remaining));
            assert(em.lives_remaining <= u32::MAX);
            assert(lives == em.lives_remaining && j4 == i + eo_won_lit(em));
            assert(lit_at(s@, j4 as int, ",\n      \"won\": "@));
            assert(j5 == i + eo_won(em));
            assert(lit_at(s@, j5 as int, spec_render_bool(em.won)));
            assert(won == em.won && j6 == i + eo_diff_lit(em));
            assert(lit_at(s@, j6 as int, ",\n      \"difficulty\": \""@));
            assert(j7 == i + eo_diff(em));
            assert(text_at(s@, j7 as int, em.difficulty));
            assert(difficulty@ == em.difficulty && j8 == i + eo_ts_lit(em));
            assert(lit_at(s@, j8 as int, ",\n      \"timestamp\": \""@));
            assert(j9 == i + eo_ts(em));
            assert(text_at(s@, j9 as int, em.timestamp));
            assert(timestamp@ == em.timestamp && j10 == i + eo_close(em));
            assert(lit_at(s@, j10 as int, "\n    }"@));
            assert(j11 == i + spec_render_entry(em).len());
            assert(res@ =~= em);
        }
    }
    Some((res, j11))
}


/// One or more rendered results joined by separators, then the array close,
/// all occurring at position `i`.
spec fn entries_close_at(t: Seq<char>, i: int, h: Seq<ResultModel>) -> bool {
    &&& h.len() >= 1
    &&& forall|k: int| 0 <= k < h.len() ==> result_wf(#[trigger] h[k])
    &&& lit_at(t, i, spec_render_entries(h) + "\n  ]"@)
}

/// Reads the remaining entries of a non-empty history array, up to and
/// including the array close.
fn parse_entries(s: &str, i: usize) -> (r: Option<(Vec<GameResult>, usize)>)
    requires
        i <= s@.len(),
    ensures
        match r {
            Some((v, j)) => i < j <= s@.len(),
            None => true,
        },
        forall|h: Seq<ResultModel>|
            #[trigger] entries_close_at(s@, i as int, h) ==> match r {
                Some((v, j)) => v.deep_view() == h && j == i + spec_render_entries(h).len()
                    + "\n  ]"@.len(),
                None => false,
            },
    decreases s@.len() - i,
{
    proof {
        assert forall|h: Seq<ResultModel>|
            #[trigger] entries_close_at(s@, i as int, h) implies entry_at(s@, i as int, h[0]) by {
            if h.len() == 1 {
                lemma_lit_at_split(s@, i as int, spec_render_entry(h[0]), "\n  ]"@);
            } else {
                assert(spec_render_entries(h) + "\n  ]"@ =~= spec_render_entry(h[0]) + (",\n"@
                    + spec_render_entries(h.drop_first()) + "\n  ]"@));
                lemma_lit_at_split(
                    s@,
                    i as int,
                    spec_render_entry(h[0]),
                    ",\n"@ + spec_render_entries(h.drop_first()) + "\n  ]"@,
                );
            }
        }
    }
    let (first, j1) = match parse_entry(s, i) {
        Some(p) => p,
        None => {
            return None;
        },
    };
    match expect_lit(s, j1, ",\n") {
        Some(j2) => {
            proof {
                reveal_strlit(",\n");
                reveal_strlit("\n  ]");
                assert forall|h: Seq<ResultModel>|
                    #[trigger] entries_close_at(s@, i as int, h) implies h.len() >= 2
                    && entries_close_at(s@, j2 as int, h.drop_first()) by {
                    if h.len() == 1 {
                        lemma_lit_at_split(s@, i as int, spec_render_entry(h[0]), "\n  ]"@);
                        assert(s@.subrange(j1 as int, j1 + "\n  ]"@.len())[0] == "\n  ]"@[0]);
                        assert(s@.subrange(j1 as int, j1 + ",\n"@.len())[0] == ",\n"@[0]);
                        assert(false);
                    } else {
                        assert(spec_render_entries(h) + "\n  ]"@ =~= spec_render_entry(h[0]) + (
                        ",\n"@ + (spec_render_entries(h.drop_first()) + "\n  ]"@)));
                        lemma_lit_at_split(
                            s@,
                            i as int,
                            spec_render_entry(h[0]),
                            ",\n"@ + (spec_render_entries(h.drop_first()) + "\n  ]"@),
                        );
                        lemma_lit_at_split(
                            s@,
                            j1 as int,
                            ",\n"@,
                            spec_render_entries(h.drop_first()) + "\n  ]"@,
                        );
                        assert(forall|k: int|
                            0 <= k < h.drop_first().len() ==> #[trigger] h.drop_first()[k] == h[k
                                + 1]);
                    }
                }
            }
            let (rest, j3) = match parse_entries(s, j2) {
                Some(p) => p,
                None => {
                    return None;
                },
            };
            let mut v = rest;
            v.insert(0, first);
            proof {
                assert forall|h: Seq<ResultModel>|
                    #[trigger] entries_close_at(s@, i as int, h) implies v.deep_view() == h && j3
                    == i + spec_render_entries(h).len() + "\n  ]"@.len() by {
                    assert(entry_at(s@, i as int, h[0]));
                    assert(first@ == h[0] && j1 == i + spec_render_entry(h[0]).len());
                    assert(entries_close_at(s@, j2 as int, h.drop_first()));
                    assert(rest.deep_view() == h.drop_first() && j3 == j2 + spec_render_entries(
                        h.drop_first(),
                    ).len() + "\n  ]"@.len());
                    assert(v.deep_view().len() == h.len());
                    assert forall|q: int| 0 <= q < h.len() implies v.deep_view()[q] == h[q] by {
                        if q == 0 {
                            assert(v@[0] == first);
                        } else {
                            assert(v@[q] == rest@[q - 1]);
                            assert(rest.deep_view()[q - 1] == h.drop_first()[q - 1]);
                            assert(h.drop_first()[q - 1] == h[q]);
                        }
                    }
                    assert(v.deep_view() =~= h);
                }
            }
            Some((v, j3))
        },
        None => {
            let j2 = match expect_lit(s, j1, "\n  ]") {
                Some(j) => j,
                None => {
                    proof {
                        reveal_strlit(",\n");
                        reveal_strlit("\n  ]");
                        assert forall|h: Seq<ResultModel>|
                            !(#[trigger] entries_close_at(s@, i as int, h)) by {
                            if entries_close_at(s@, i as int, h) {
                                if h.len() == 1 {
                                    lemma_lit_at_split(
                                        s@,
                                        i as int,
                                        spec_render_entry(h[0]),
                                        "\n  ]"@,
                                    );
                                } else {
                                    assert(spec_render_entries(h) + "\n  ]"@
                                        =~= spec_render_entry(h[0]) + (",\n"@ + (
                                    spec_render_entries(h.drop_first()) + "\n  ]"@)));
                                    lemma_lit_at_split(
                                        s@,
                                        i as int,
                                        spec_render_entry(h[0]),
                                        ",\n"@ + (spec_render_entries(h.drop_first())
                                            + "\n  ]"@),
                                    );
                                    lemma_lit_at_split(
                                        s@,
                                        j1 as int,
                                        ",\n"@,
                                        spec_render_entries(h.drop_first()) + "\n  ]"@,
                                    );
                                }
                            }
                        }
                    }
                    return None;
                },
            };
            let mut v: Vec<GameResult> = Vec::new();
            v.push(first);
            proof {
                reveal_strlit(",\n");
                reveal_strlit("\n  ]");
                assert forall|h: Seq<ResultModel>|
                    #[trigger] entries_close_at(s@, i as int, h) implies v.deep_view() == h && j2
                    == i + spec_render_entries(h).len() + "\n  ]"@.len() by {
                    if h.len() >= 2 {
                        assert(spec_render_entries(h) + "\n  ]"@ =~= spec_render_entry(h[0]) + (
                        ",\n"@ + (spec_render_entries(h.drop_first()) + "\n  ]"@)));
                        lemma_lit_at_split(
                            s@,
                            i as int,
                            spec_render_entry(h[0]),
                            ",\n"@ + (spec_render_entries(h.drop_first()) + "\n  ]"@),
                        );
                        lemma_lit_at_split(
                            s@,
                            j1 as int,
                            ",\n"@,
                            spec_render_entries(h.drop_first()) + "\n  ]"@,
                        );
                        assert(s@.subrange(j1 as int, j1 + ",\n"@.len())[0] == ",\n"@[0]);
                        assert(false);
                    }
                    assert(h =~= seq![h[0]]);
                    assert(v.deep_view() =~= h);
                }
            }
            Some((v, j2))
        },
    }
}

/// A batch of well-formed results whose whole array rendering occurs at `i`.
spec fn history_at(t: Seq<char>, i: int, h: Seq<ResultModel>) -> bool {
    &&& forall|k: int| 0 <= k < h.len() ==> result_wf(#[trigger] h[k])
    &&& lit_at(t, i, spec_render_history(h))
}

/// Reads a whole rendered history array at position `i` of `s`.
fn parse_history(s: &str, i: usize) -> (r: Option<(Vec<GameResult>, usize)>)
    requires
        i <= s@.len(),
    ensures
        match r {
            Some((v, j)) => i < j <= s@.len(),
            None => true,
        },
        forall|h: Seq<ResultModel>|
            #[trigger] history_at(s@, i as int, h) ==> match r {
                Some((v, j)) => v.deep_view() == h && j == i + spec_render_history(h).len(),
                None => false,
            },
{
    match expect_lit(s, i, "[]") {
        Some(j) => {
            let v: Vec<GameResult> = Vec::new();
            proof {
                reveal_strlit("[]");
                reveal_strlit("[\n");
                assert forall|h: Seq<ResultModel>|
                    #[trigger] history_at(s@, i as int, h) implies v.deep_view() == h && j == i
                    + spec_render_history(h).len() by {
                    if h.len() > 0 {
                        assert(spec_render_history(h) =~= "[\n"@ + (spec_render_entries(h)
                            + "\n  ]"@));
                        lemma_lit_at_split(
                            s@,
                            i as int,
                            "[\n"@,
                            spec_render_entries(h) + "\n  ]"@,
                        );
                        assert(s@.subrange(i as int, i + "[\n"@.len())[1] == "[\n"@[1]);
                        assert(s@.subrange(i as int, i + "[]"@.len())[1] == "[]"@[1]);
                        assert(false);
                    }
                    assert(v.deep_view() =~= h);
                }
            }
            Some((v, j))
        },
        None => {
            let j1 = match expect_lit(s, i, "[\n") {
                Some(j) => j,
                None => {
                    proof {
                        reveal_strlit("[]");
                        reveal_strlit("[\n");
                        assert forall|h: Seq<ResultModel>|
                            !(#[trigger] history_at(s@, i as int, h)) by {
                            if history_at(s@, i as int, h) {
                                if h.len() > 0 {
                                    assert(spec_render_history(h) =~= "[\n"@ + (
                                    spec_render_entries(h) + "\n  ]"@));
                                    lemma_lit_at_split(
                                        s@,
                                        i as int,
                                        "[\n"@,
                                        spec_render_entries(h) + "\n  ]"@,
                                    );
                                }
                            }
                        }
                    }
                    return None;
                },
            };
            proof {
                assert forall|h: Seq<ResultModel>|
                    #[trigger] history_at(s@, i as int, h) implies h.len() >= 1
                    && entries_close_at(s@, j1 as int, h) by {
                    reveal_strlit("[]");
                    reveal_strlit("[\n");
                    if h.len() == 0 {
                        assert(s@.subrange(i as int, i + "[\n"@.len())[1] == "[\n"@[1]);
                        assert(s@.subrange(i as int, i + "[]"@.len())[1] == "[]"@[1]);
                        assert(false);
                    } else {
                        assert(spec_render_history(h) =~= "[\n"@ + (spec_render_entries(h)
                            + "\n  ]"@));
                        lemma_lit_at_split(
                            s@,
                            i as int,
                            "[\n"@,
                            spec_render_entries(h) + "\n  ]"@,
                        );
                    }
                }
            }
            match parse_entries(s, j1) {
                Some((v, j2)) => Some((v, j2)),
                None => None,
            }
        },
    }
}

/// An optional best score whose rendering occurs at position `i`.
spec fn best_at(t: Seq<char>, i: int, b: Option<nat>) -> bool {
    match b {
        None => lit_at(t, i, "null"@),
        Some(v) => v <= u32::MAX && num_at(t, i, v),
    }
}

/// Reads a rendered optional best score at position `i` of `s`.
fn parse_best(s: &str, i: usize) -> (r: Option<(Option<u32>, usize)>)
    requires
        i <= s@.len(),
    ensures
        match r {
            Some((b, j)) => i < j <= s@.len(),
            None => true,
        },
        forall|b: Option<nat>|
            #[trigger] best_at(s@, i as int, b) ==> match r {
                Some((rb, rj)) => (match (b, rb) {
                    (Option::None, Option::None) => true,
                    (Option::Some(bv), Option::Some(rv)) => rv == bv,
                    _ => false,
                }) && rj == i + spec_render_best(b).len(),
                None => false,
            },
{
    match expect_lit(s, i, "null") {
        Some(j) => {
            proof {
                reveal_strlit("null");
                assert forall|b: Option<nat>| #[trigger] best_at(s@, i as int, b) implies b
                    is None by {
                    match b {
                        Some(v) => {
                            lemma_dec_props(v);
                            assert(s@.subrange(i as int, i + spec_dec(v).len())[0] == spec_dec(
                                v,
                            )[0]);
                            assert(s@.subrange(i as int, i + "null"@.len())[0] == "null"@[0]);
                            assert(is_digit_char('n') == false);
                            assert(false);
                        },
                        None => {},
                    }
                }
            }
            Some((None, j))
        },
        None => match parse_num(s, i) {
            Some((v, j)) => Some((Some(v), j)),
            None => None,
        },
    }
}

spec fn so_tg(m: StatsModel) -> int {
    "{\n  \"total_games\": "@.len() as int
}

spec fn so_s2(m: StatsModel) -> int {
    so_tg(m) + spec_dec(m.total_games).len()
}

spec fn so_gw(m: StatsModel) -> int {
    so_s2(m) + ",\n  \"games_won\": "@.len()
}

spec fn so_s3(m: StatsModel) -> int {
    so_gw(m) + spec_dec(m.games_won).len()
}

spec fn so_gl(m: StatsModel) -> int {
    so_s3(m) + ",\n  \"games_lost\": "@.len()
}

spec fn so_s4(m: StatsModel) -> int {
    so_gl(m) + spec_dec(m.games_lost).len()
}

spec fn so_ta(m: StatsModel) -> int {
    so_s4(m) + ",\n  \"total_attempts\": "@.len()
}

spec fn so_s5(m: StatsModel) -> int {
    so_ta(m) + spec_dec(m.total_attempts).len()
}

spec fn so_best(m: StatsModel) -> int {
    so_s5(m) + ",\n  \"best_score\": "@.len()
}

spec fn so_s6(m: StatsModel) -> int {
    so_best(m) + spec_render_best(m.best_score).len()
}

spec fn so_hist(m: StatsModel) -> int {
    so_s6(m) + ",\n  \"game_history\": "@.len()
}

spec fn so_end(m: StatsModel) -> int {
    so_hist(m) + spec_render_history(m.game_history).len()
}

/// A well-formed store whose whole canonical rendering is exactly `t`.
spec fn stats_at(t: Seq<char>, m: StatsModel) -> bool {
    stats_wf_model(m) && t == spec_render_stats(m)
}

/// The canonical rendering of a store decomposes into its pieces, each at
/// its own offset, in the shape the parser consumes them.
proof fn lemma_stats_at_parts(t: Seq<char>, m: StatsModel)
    requires
        stats_at(t, m),
    ensures
        lit_at(t, 0, "{\n  \"total_games\": "@),
        num_at(t, so_tg(m), m.total_games),
        lit_at(t, so_s2(m), ",\n  \"games_won\": "@),
        num_at(t, so_gw(m), m.games_won),
        lit_at(t, so_s3(m), ",\n  \"games_lost\": "@),
        num_at(t, so_gl(m), m.games_lost),
        lit_at(t, so_s4(m), ",\n  \"total_attempts\": "@),
        num_at(t, so_ta(m), m.total_attempts),
        lit_at(t, so_s5(m), ",\n  \"best_score\": "@),
        best_at(t, so_best(m), m.best_score),
        lit_at(t, so_s6(m), ",\n  \"game_history\": "@),
        history_at(t, so_hist(m), m.game_history),
        lit_at(t, so_end(m), "\n}"@),
{
    let a1 = "{\n  \"total_games\": "@;
    let d1 = spec_dec(m.total_games);
    let a2 = ",\n  \"games_won\": "@;
    let d2 = spec_dec(m.games_won);
    let a3 = ",\n  \"games_lost\": "@;
    let d3 = spec_dec(m.games_lost);
    let a4 = ",\n  \"total_attempts\": "@;
    let d4 = spec_dec(m.total_attempts);
    let a5 = ",\n  \"best_score\": "@;
    let bb = spec_render_best(m.best_score);
    let a6 = ",\n  \"game_history\": "@;
    let hh = spec_render_history(m.game_history);
    let a7 = "\n}"@;
    assert(lit_at(t, 0, t)) by {
        assert(t.subrange(0, t.len() as int) =~= t);
    }
    lemma_lit_at_split(t, 0, a1 + d1 + a2 + d2 + a3 + d3 + a4 + d4 + a5 + bb + a6 + hh, a7);
    lemma_lit_at_split(t, 0, a1 + d1 + a2 + d2 + a3 + d3 + a4 + d4 + a5 + bb + a6, hh);
    lemma_lit_at_split(t, 0, a1 + d1 + a2 + d2 + a3 + d3 + a4 + d4 + a5 + bb, a6);
    lemma_lit_at_split(t, 0, a1 + d1 + a2 + d2 + a3 + d3 + a4 + d4 + a5, bb);
    lemma_lit_at_split(t, 0, a1 + d1 + a2 + d2 + a3 + d3 + a4 + d4, a5);
    lemma_lit_at_split(t, 0, a1 + d1 + a2 + d2 + a3 + d3 + a4, d4);
    lemma_lit_at_split(t, 0, a1 + d1 + a2 + d2 + a3 + d3, a4);
    lemma_lit_at_split(t, 0, a1 + d1 + a2 + d2 + a3, d3);
    lemma_lit_at_split(t, 0, a1 + d1 + a2 + d2, a3);
    lemma_lit_at_split(t, 0, a1 + d1 + a2, d2);
    lemma_lit_at_split(t, 0, a1 + d1, a2);
    lemma_lit_at_split(t, 0, a1, d1);
    reveal_strlit(",\n  \"games_won\": ");
    reveal_strlit(",\n  \"games_lost\": ");
    reveal_strlit(",\n  \"total_attempts\": ");
    reveal_strlit(",\n  \"best_score\": ");
    reveal_strlit(",\n  \"game_history\": ");
    assert(t.subrange(so_s2(m), so_s2(m) + a2.len())[0] == a2[0]);
    assert(!is_digit_char(t[so_s2(m)]));
    assert(t.subrange(so_s3(m), so_s3(m) + a3.len())[0] == a3[0]);
    assert(!is_digit_char(t[so_s3(m)]));
    assert(t.subrange(so_s4(m), so_s4(m) + a4.len())[0] == a4[0]);
    assert(!is_digit_char(t[so_s4(m)]));
    assert(t.subrange(so_s5(m), so_s5(m) + a5.len())[0] == a5[0]);
    assert(!is_digit_char(t[so_s5(m)]));
    assert(t.subrange(so_s6(m), so_s6(m) + a6.len())[0] == a6[0]);
    assert(!is_digit_char(t[so_s6(m)]));
}

/// Checks whether a string holds only clean characters.
fn is_clean_str(t: &str) -> (b: bool)
    ensures
        b == clean_text(t@),
{
    let m = t.unicode_len();
    let mut k: usize = 0;
    while k < m
        invariant
            k <= m,
            m == t@.len(),
            forall|q: int| 0 <= q < k ==> clean_char(#[trigger] t@[q]),
        decreases m - k,
    {
        let c = t.get_char(k);
        let cu = c as u32;
        if !(0x20 <= cu && cu <= 0x7e && cu != 0x22 && cu != 0x5c) {
            proof {
                assert(!clean_char(t@[k as int]));
            }
            return false;
        }
        k = k + 1;
    }
    true
}

/// Checks the store invariant on a freshly assembled store.
fn check_wf(st: &GameStats) -> (b: bool)
    ensures
        b == stats_wf_model(st@),
{
    if (st.games_won as u64) + (st.games_lost as u64) != (st.total_games as u64) {
        return false;
    }
    if (st.game_history.len() as u64) != (st.total_games as u64) {
        return false;
    }
    match st.best_score {
        Some(b) => {
            if st.games_won == 0 || b == 0 {
                return false;
            }
        },
        None => {
            if st.games_won > 0 {
                return false;
            }
        },
    }
    let mut k: usize = 0;
    while k < st.game_history.len()
        invariant
            k <= st.game_history.len(),
            forall|q: int|
                0 <= q < k ==> result_wf(#[trigger] st.game_history.deep_view()[q]),
        decreases st.game_history.len() - k,
    {
        let e = vstd::std_specs::vec::vec_index(&st.game_history, k);
        if e.attempts == 0 {
            proof {
                assert(!result_wf(st.game_history.deep_view()[k as int]));
            }
            return false;
        }
        if !is_clean_str(e.difficulty.as_str()) {
            proof {
                assert(!result_wf(st.game_history.deep_view()[k as int]));
            }
            return false;
        }
        if !is_clean_str(e.timestamp.as_str()) {
            proof {
                assert(!result_wf(st.game_history.deep_view()[k as int]));
            }
            return false;
        }
        k = k + 1;
    }
    proof {
        assert(stats_wf_model(st@));
    }
    true
}

/// What loading a persisted rendering yields: either the store it canonically
/// renders, or the finding that the text is not such a rendering.
#[derive(Debug)]
pub enum LoadOutcome {
    Parsed(GameStats),
    Malformed,
}

/// Parses a persisted rendering. This accepts exactly the canonical
/// renderings of well-formed stores: a parsed store is well formed and
/// renders back to the input, and whenever the input is the rendering of
/// some well-formed store, that store is returned.
pub fn parse_stats(s: &str) -> (r: LoadOutcome)
    ensures
        match r {
            LoadOutcome::Parsed(st) => st.wf() && spec_render_stats(st@) == s@,
            LoadOutcome::Malformed => true,
        },
        forall|m: StatsModel|
            stats_wf_model(m) && #[trigger] spec_render_stats(m) == s@ ==> match r {
                LoadOutcome::Parsed(st) => st@ == m,
                LoadOutcome::Malformed => false,
            },
{
    let j0 = match expect_lit(s, 0, "{\n  \"total_games\": ") {
        Some(j) => j,
        None => {
            proof {
                assert forall|m: StatsModel|
                    !(stats_wf_model(m) && #[trigger] spec_render_stats(m) == s@) by {
                    if stats_wf_model(m) && spec_render_stats(m) == s@ {
                        lemma_stats_at_parts(s@, m);
                    }
                }
            }
            return LoadOutcome::Malformed;
        },
    };
    let (tg, j1) = match parse_num(s, j0) {
        Some(p) => p,
        None => {
            proof {
                assert forall|m: StatsModel|
                    !(stats_wf_model(m) && #[trigger] spec_render_stats(m) == s@) by {
                    if stats_wf_model(m) && spec_render_stats(m) == s@ {
                        lemma_stats_at_parts(s@, m);
                        assert(num_at(s@, j0 as int, m.total_games));
                    }
                }
            }
            return LoadOutcome::Malformed;
        },
    };
    let j2 = match expect_lit(s, j1, ",\n  \"games_won\": ") {
        Some(j) => j,
        None => {
            proof {
                assert forall|m: StatsModel|
                    !(stats_wf_model(m) && #[trigger] spec_render_stats(m) == s@) by {
                    if stats_wf_model(m) && spec_render_stats(m) == s@ {
                        lemma_stats_at_parts(s@, m);
                        assert(num_at(s@, j0 as int, m.total_games));
                        assert(lit_at(s@, j1 as int, ",\n  \"games_won\": "@));
                    }
                }
            }
            return LoadOutcome::Malformed;
        },
    };
    let (gw, j3) = match parse_num(s, j2) {
        Some(p) => p,
        None => {
            proof {
                assert forall|m: StatsModel|
                    !(stats_wf_model(m) && #[trigger] spec_render_stats(m) == s@) by {
                    if stats_wf_model(m) && spec_render_stats(m) == s@ {
                        lemma_stats_at_parts(s@, m);
                        assert(num_at(s@, j0 as int, m.total_games));
                        assert(lit_at(s@, j1 as int, ",\n  \"games_won\": "@));
                        assert(num_at(s@, j2 as int, m.games_won));
                    }
                }
            }
            return LoadOutcome::Malformed;
        },
    };
    let j4 = match expect_lit(s, j3, ",\n  \"games_lost\": ") {
        Some(j) => j,
        None => {
            proof {
                assert forall|m: StatsModel|
                    !(stats_wf_model(m) && #[trigger] spec_render_stats(m) == s@) by {
                    if stats_wf_model(m) && spec_render_stats(m) == s@ {
                        lemma_stats_at_parts(s@, m);
                        assert(num_at(s@, j0 as int, m.total_games));
                        assert(lit_at(s@, j1 as int, ",\n  \"games_won\": "@));
                        assert(num_at(s@, j2 as int, m.games_won));
                        assert(lit_at(s@, j3 as int, ",\n  \"games_lost\": "@));
                    }
                }
            }
            return LoadOutcome::Malformed;
        },
    };
    let (gl, j5) = match parse_num(s, j4) {
        Some(p) => p,
        None => {
            proof {
                assert forall|m: StatsModel|
                    !(stats_wf_model(m) && #[trigger] spec_render_stats(m) == s@) by {
                    if stats_wf_model(m) && spec_render_stats(m) == s@ {
                        lemma_stats_at_parts(s@, m);
                        assert(num_at(s@, j0 as int, m.total_games));
                        assert(lit_at(s@, j1 as int, ",\n  \"games_won\": "@));
                        assert(num_at(s@, j2 as int, m.games_won));
                        assert(lit_at(s@, j3 as int, ",\n  \"games_lost\": "@));
                        assert(num_at(s@, j4 as int, m.games_lost));
                    }
                }
            }
            return LoadOutcome::Malformed;
        },
    };
    let j6 = match expect_lit(s, j5, ",\n  \"total_attempts\": ") {
        Some(j) => j,
        None => {
            proof {
                assert forall|m: StatsModel|
                    !(stats_wf_model(m) && #[trigger] spec_render_stats(m) == s@) by {
                    if stats_wf_model(m) && spec_render_stats(m) == s@ {
                        lemma_stats_at_parts(s@, m);
                        assert(num_at(s@, j0 as int, m.total_games));
                        assert(lit_at(s@, j1 as int, ",\n  \"games_won\": "@));
                        assert(num_at(s@, j2 as int, m.games_won));
                        assert(lit_at(s@, j3 as int, ",\n  \"games_lost\": "@));
                        assert(num_at(s@, j4 as int, m.games_lost));
                        assert(lit_at(s@, j5 as int, ",\n  \"total_attempts\": "@));
                    }
                }
            }
            return LoadOutcome::Malformed;
        },
    };
    let (ta, j7) = match parse_num(s, j6) {
        Some(p) => p,
        None => {
            proof {
                assert forall|m: StatsModel|
                    !(stats_wf_model(m) && #[trigger] spec_render_stats(m) == s@) by {
                    if stats_wf_model(m) && spec_render_stats(m) == s@ {
                        lemma_stats_at_parts(s@, m);
                        assert(num_at(s@, j0 as int, m.total_games));
                        assert(lit_at(s@, j1 as int, ",\n  \"games_won\": "@));
                        assert(num_at(s@, j2 as int, m.games_won));
                        assert(lit_at(s@, j3 as int, ",\n  \"games_lost\": "@));
                        assert(num_at(s@, j4 as int, m.games_lost));
                        assert(lit_at(s@, j5 as int, ",\n  \"total_attempts\": "@));
                        assert(num_at(s@, j6 as int, m.total_attempts));
                    }
                }
            }
            return LoadOutcome::Malformed;
        },
    };
    let j8 = match expect_lit(s, j7, ",\n  \"best_score\": ") {
        Some(j) => j,
        None => {
            proof {
                assert forall|m: StatsModel|
                    !(stats_wf_model(m) && #[trigger] spec_render_stats(m) == s@) by {
                    if stats_wf_model(m) && spec_render_stats(m) == s@ {
                        lemma_stats_at_parts(s@, m);
                        assert(num_at(s@, j0 as int, m.total_games));
                        assert(lit_at(s@, j1 as int, ",\n  \"games_won\": "@));
                        assert(num_at(s@, j2 as int, m.games_won));
                        assert(lit_at(s@, j3 as int, ",\n  \"games_lost\": "@));
                        assert(num_at(s@, j4 as int, m.games_lost));
                        assert(lit_at(s@, j5 as int, ",\n  \"total_attempts\": "@));
                        assert(num_at(s@, j6 as int, m.total_attempts));
                        assert(lit_at(s@, j7 as int, ",\n  \"best_score\": "@));
                    }
                }
            }
            return LoadOutcome::Malformed;
        },
    };
    let (best, j9) = match parse_best(s, j8) {
        Some(p) => p,
        None => {
            proof {
                assert forall|m: StatsModel|
                    !(stats_wf_model(m) && #[trigger] spec_render_stats(m) == s@) by {
                    if stats_wf_model(m) && spec_render_stats(m) == s@ {
                        lemma_stats_at_parts(s@, m);
                        assert(num_at(s@, j0 as int, m.total_games));
                        assert(lit_at(s@, j1 as int, ",\n  \"games_won\": "@));
                        assert(num_at(s@, j2 as int, m.games_won));
                        assert(lit_at(s@, j3 as int, ",\n  \"games_lost\": "@));
                        assert(num_at(s@, j4 as int, m.games_lost));
                        assert(lit_at(s@, j5 as int, ",\n  \"total_attempts\": "@));
                        assert(num_at(s@, j6 as int, m.total_attempts));
                        assert(lit_at(s@, j7 as int, ",\n  \"best_score\": "@));
                        assert(best_at(s@, j8 as int, m.best_score));
                    }
                }
            }
            return LoadOutcome::Malformed;
        },
    };
    let j10 = match expect_lit(s, j9, ",\n  \"game_history\": ") {
        Some(j) => j,
        None => {
            proof {
                assert forall|m: StatsModel|
                    !(stats_wf_model(m) && #[trigger] spec_render_stats(m) == s@) by {
                    if stats_wf_model(m) && spec_render_stats(m) == s@ {
                        lemma_stats_at_parts(s@, m);
                        assert(num_at(s@, j0 as int, m.total_games));
                        assert(lit_at(s@, j1 as int, ",\n  \"games_won\": "@));
                        assert(num_at(s@, j2 as int, m.games_won));
                        assert(lit_at(s@, j3 as int, ",\n  \"games_lost\": "@));
                        assert(num_at(s@, j4 as int, m.games_lost));
                        assert(lit_at(s@, j5 as int, ",\n  \"total_attempts\": "@));
                        assert(num_at(s@, j6 as int, m.total_attempts));
                        assert(lit_at(s@, j7 as int, ",\n  \"best_score\": "@));
                        assert(best_at(s@, j8 as int, m.best_score));
                        assert(lit_at(s@, j9 as int, ",\n  \"game_history\": "@));
                    }
                }
            }
            return LoadOutcome::Malformed;
        },
    };
    let (hist, j11) = match parse_history(s, j10) {
        Some(p) => p,
        None => {
            proof {
                assert forall|m: StatsModel|
                    !(stats_wf_model(m) && #[trigger] spec_render_stats(m) == s@) by {
                    if stats_wf_model(m) && spec_render_stats(m) == s@ {
                        lemma_stats_at_parts(s@, m);
                        assert(num_at(s@, j0 as int, m.total_games));
                        assert(lit_at(s@, j1 as int, ",\n  \"games_won\": "@));
                        assert(num_at(s@, j2 as int, m.games_won));
                        assert(lit_at(s@, j3 as int, ",\n  \"games_lost\": "@));
                        assert(num_at(s@, j4 as int, m.games_lost));
                        assert(lit_at(s@, j5 as int, ",\n  \"total_attempts\": "@));
                        assert(num_at(s@, j6 as int, m.total_attempts));
                        assert(lit_at(s@, j7 as int, ",\n  \"best_score\": "@));
                        assert(best_at(s@, j8 as int, m.best_score));
                        assert(lit_at(s@, j9 as int, ",\n  \"game_history\": "@));
                        assert(history_at(s@, j10 as int, m.game_history));
                    }
                }
            }
            return LoadOutcome::Malformed;
        },
    };
    let st = GameStats {
        total_games: tg,
        games_won: gw,
        games_lost: gl,
        total_attempts: ta,
        best_score: best,
        game_history: hist,
    };
    proof {
        assert forall|m: StatsModel|
            stats_wf_model(m) && #[trigger] spec_render_stats(m) == s@ implies st@ == m by {
            lemma_stats_at_parts(s@, m);
            assert(num_at(s@, j0 as int, m.total_games));
            assert(lit_at(s@, j1 as int, ",\n  \"games_won\": "@));
            assert(num_at(s@, j2 as int, m.games_won));
            assert(lit_at(s@, j3 as int, ",\n  \"games_lost\": "@));
            assert(num_at(s@, j4 as int, m.games_lost));
            assert(lit_at(s@, j5 as int, ",\n  \"total_attempts\": "@));
            assert(num_at(s@, j6 as int, m.total_attempts));
            assert(lit_at(s@, j7 as int, ",\n  \"best_score\": "@));
            assert(best_at(s@, j8 as int, m.best_score));
            assert(lit_at(s@, j9 as int, ",\n  \"game_history\": "@));
            assert(history_at(s@, j10 as int, m.game_history));
            assert(st@ =~= m);
        }
    }
    if !check_wf(&st) {
        return LoadOutcome::Malformed;
    }
    let rendered = render_stats(&st);
    let owned = s.to_owned();
    if rendered == owned {
        LoadOutcome::Parsed(st)
    } else {
        LoadOutcome::Malformed
    }
}

/// Renders a statistics store in the persistence format.
pub fn render_stats(stats: &GameStats) -> (r: String)
    ensures
        r@ == spec_render_stats(stats@),
{
    let mut out = String::new();
    out.append("{\n  \"total_games\": ");
    append_u32(&mut out, stats.total_games);
    out.append(",\n  \"games_won\": ");
    append_u32(&mut out, stats.games_won);
    out.append(",\n  \"games_lost\": ");
    append_u32(&mut out, stats.games_lost);
    out.append(",\n  \"total_attempts\": ");
    append_u32(&mut out, stats.total_attempts);
    out.append(",\n  \"best_score\": ");
    match stats.best_score {
        Some(b) => append_u32(&mut out, b),
        None => out.append("null"),
    }
    out.append(",\n  \"game_history\": ");
    render_history_into(&mut out, &stats.game_history);
    out.append("\n}");
    proof {
        assert(out@ =~= spec_render_stats(stats@));
    }
    out
}

} // verus!
