//! The choice of the directory that matches a query best.

use crate::db::{History, Record};
use crate::error::JumpError;
use crate::score::{score, score_of};
use crate::text::words;
use vstd::prelude::*;

verus! {

/// The scores of the rows of a history against the query `terms`, row by
/// row.
pub open spec fn scores_of(terms: Seq<Seq<char>>, rows: Seq<Record>) -> Seq<u32> {
    Seq::new(rows.len(), |i: int| score_of(terms, rows[i].path))
}

/// Whether position `i` wins among `scores`: its score is above zero, above
/// every score before it and not below any after it. Of equal scores the
/// first one wins.
pub open spec fn is_best(scores: Seq<u32>, i: int) -> bool {
    &&& 0 <= i < scores.len()
    &&& scores[i] > 0
    &&& forall|j: int| 0 <= j < i ==> #[trigger] scores[j] < scores[i]
    &&& forall|j: int| i <= j < scores.len() ==> #[trigger] scores[j] <= scores[i]
}

/// The position that wins among `scores`, if any score is above zero.
pub open spec fn winner(scores: Seq<u32>) -> Option<int> {
    if exists|i: int| is_best(scores, i) {
        Some(choose|i: int| is_best(scores, i))
    } else {
        None
    }
}

/// The path that a query resolves to in a history: that of the winning row.
pub open spec fn best_path(terms: Seq<Seq<char>>, rows: Seq<Record>) -> Option<Seq<char>> {
    match winner(scores_of(terms, rows)) {
        Some(i) => Some(rows[i].path),
        None => None,
    }
}

/// Whether `found` is what a query resolves to in a history: the path of
/// the winning row, or the report that no row matches.
pub open spec fn resolves(
    terms: Seq<Seq<char>>,
    rows: Seq<Record>,
    found: Result<String, JumpError>,
) -> bool {
    match found {
        Ok(path) => best_path(terms, rows) == Some(path@),
        Err(e) => best_path(terms, rows) is None && e == JumpError::EmptyResult,
    }
}

/// `winner` names the one position that wins, and none exactly where every
/// score is zero.
pub proof fn lemma_winner(scores: Seq<u32>)
    ensures
        forall|i: int| is_best(scores, i) <==> winner(scores) == Some(i),
        winner(scores) is None <==> forall|j: int|
            0 <= j < scores.len() ==> #[trigger] scores[j] == 0,
{
    assert forall|i: int| is_best(scores, i) implies winner(scores) == Some(i) by {
        // of two positions that win, neither comes before the other
        let chosen = choose|c: int| is_best(scores, c);
        assert(chosen == i);
    }
    if winner(scores) is None && exists|j: int| 0 <= j < scores.len() && #[trigger] scores[j] != 0 {
        let j = choose|j: int| 0 <= j < scores.len() && #[trigger] scores[j] != 0;
        lemma_some_position_wins(scores, j);
    }
}

/// Where some score is above zero, some position wins.
proof fn lemma_some_position_wins(scores: Seq<u32>, j: int)
    requires
        0 <= j < scores.len(),
        scores[j] > 0,
    ensures
        exists|i: int| is_best(scores, i),
    decreases scores.len(),
{
    let front = scores.drop_last();
    let last = scores.len() - 1;
    if exists|k: int| 0 <= k < front.len() && #[trigger] front[k] > 0 {
        let k = choose|k: int| 0 <= k < front.len() && #[trigger] front[k] > 0;
        lemma_some_position_wins(front, k);
        let b = choose|b: int| is_best(front, b);
        if scores[last] > front[b] {
            assert forall|m: int| 0 <= m < last implies #[trigger] scores[m] < scores[last] by {
                assert(front[m] <= front[b]);
            }
            assert(is_best(scores, last));
        } else {
            assert forall|m: int| 0 <= m < b implies #[trigger] scores[m] < scores[b] by {
                assert(scores[m] == front[m]);
            }
            assert forall|m: int| b <= m < scores.len() implies #[trigger] scores[m]
                <= scores[b] by {
                if m < last {
                    assert(scores[m] == front[m]);
                }
            }
            assert(is_best(scores, b));
        }
    } else {
        assert(j == last) by {
            if j < last {
                assert(front[j] == scores[j]);
            }
        }
        assert forall|m: int| 0 <= m < last implies #[trigger] scores[m] < scores[last] by {
            assert(front[m] == scores[m]);
        }
        assert(is_best(scores, last));
    }
}

/// Picks the position of the best score: the first of the highest ones, and
/// none where no score is above zero.
pub fn select_best(scores: &Vec<u32>) -> (best: Option<usize>)
    ensures
        match best {
            Some(i) => winner(scores@) == Some(i as int),
            None => winner(scores@) is None,
        },
{
    let mut best: Option<usize> = None;
    let mut max_score: u32 = 0;
    let mut i: usize = 0;
    while i < scores.len()
        invariant
            i <= scores@.len(),
            match best {
                Some(b) => b < i && max_score == scores@[b as int] && is_best(
                    scores@.take(i as int),
                    b as int,
                ),
                None => max_score == 0 && forall|j: int| 0 <= j < i ==> #[trigger] scores@[j] == 0,
            },
        decreases scores@.len() - i,
    {
        let ghost seen = scores@.take(i as int);
        let ghost now = scores@.take(i + 1);
        let s = scores[i];
        proof {
            assert forall|j: int| 0 <= j < i implies #[trigger] now[j] == seen[j] by {}
        }
        if s > max_score {
            max_score = s;
            best = Some(i);
        }
        i += 1;
    }
    proof {
        assert(scores@.take(i as int) =~= scores@);
        lemma_winner(scores@);
    }
    best
}

/// Find the best-matching directory: the path of the row that scores highest
/// against the query. Of rows with the same score the first one wins, and
/// where no row scores above zero there is no match.
pub fn jump(history: &History, args: Vec<String>) -> (found: Result<String, JumpError>)
    ensures
        resolves(words(args@), history@, found),
        history@.len() == 0 ==> found == Err::<String, JumpError>(JumpError::EmptyResult),
{
    let ghost terms = words(args@);
    // Go through all rows and score them
    let mut scores: Vec<u32> = Vec::new();
    let mut i: usize = 0;
    while i < history.len()
        invariant
            i <= history@.len(),
            terms == words(args@),
            scores@ == scores_of(terms, history@).take(i as int),
        decreases history@.len() - i,
    {
        let s = score(args.as_slice(), history.row(i));
        scores.push(s);
        i += 1;
    }
    proof {
        assert(scores_of(terms, history@).take(i as int) =~= scores_of(terms, history@));
        lemma_winner(scores@);
    }
    match select_best(&scores) {
        Some(best) => Ok(history.row(best).dir.clone()),
        None => Err(JumpError::EmptyResult),
    }
}

/// In an empty history no query finds a match.
pub proof fn no_match_in_empty_history(terms: Seq<Seq<char>>, found: Result<String, JumpError>)
    requires
        resolves(terms, Seq::<Record>::empty(), found),
    ensures
        found == Err::<String, JumpError>(JumpError::EmptyResult),
{
    lemma_winner(scores_of(terms, Seq::<Record>::empty()));
}

/// A query resolves in one way only: two outcomes for the same query on the
/// same rows in the same order agree, in the path they name or in naming
/// none.
pub proof fn resolution_is_deterministic(
    terms: Seq<Seq<char>>,
    rows: Seq<Record>,
    first: Result<String, JumpError>,
    second: Result<String, JumpError>,
)
    requires
        resolves(terms, rows, first),
        resolves(terms, rows, second),
    ensures
        first is Ok <==> second is Ok,
        first is Ok ==> first->Ok_0@ == second->Ok_0@,
        first is Err ==> first == second,
{
}

} // verus!
