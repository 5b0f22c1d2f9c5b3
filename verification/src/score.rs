//! The score of a stored directory against a query.

use crate::db::Dir;
use crate::text::{component_ranges, components, join_components, join_spaces, join_terms, words};
use vstd::prelude::*;

verus! {

/// The highest score: that of two strings which the comparison takes to be
/// the same.
pub const MAX_SCORE: u32 = 100;

/// The part of `path` that a query of `terms` words is compared with: its
/// last `terms` components, or all of them where it has no more, joined
/// with single spaces.
pub open spec fn normalized(terms: nat, path: Seq<char>) -> Seq<char> {
    let parts = components(path);
    let slice_len = if terms >= parts.len() {
        0
    } else {
        parts.len() - terms
    };
    join_spaces(parts.skip(slice_len))
}

/// The similarity, from 0 to 100, that `fuzzywuzzy::fuzz::token_sort_ratio`
/// finds between two strings under the two given flags.
pub uninterp spec fn token_sort_similarity(
    s1: Seq<char>,
    s2: Seq<char>,
    force_ascii: bool,
    full_process: bool,
) -> u8;

/// The score of the directory `path` against the query `terms`.
pub open spec fn score_of(terms: Seq<Seq<char>>, path: Seq<char>) -> u32 {
    token_sort_similarity(join_spaces(terms), normalized(terms.len(), path), true, true) as u32
}

/// Calls `fuzzywuzzy::fuzz::token_sort_ratio`, which cleans both strings,
/// sorts the words of each and compares what results. The result depends on
/// the four arguments alone and is at most 100. Both flags are asked for:
/// with them the strings are reduced to ASCII before the crate cuts them at
/// byte offsets, which without them can fall inside a character and stop
/// the call.
#[verifier::external_body]
fn token_sort_ratio(s1: &str, s2: &str, force_ascii: bool, full_process: bool) -> (ratio: u8)
    requires
        force_ascii,
        full_process,
    ensures
        ratio == token_sort_similarity(s1@, s2@, force_ascii, full_process),
        ratio <= 100,
{
    fuzzywuzzy::fuzz::token_sort_ratio(s1, s2, force_ascii, full_process)
}

/// Normalize a directory.
///
/// A query is likely to name the end bits of a directory, so only as many
/// trailing components as the query has words are kept.
pub fn normalize_directory(args: &[String], dir: &str) -> (normalized_dir: String)
    ensures
        normalized_dir@ == normalized(args@.len(), dir@),
        args@.len() == 0 ==> normalized_dir@ == Seq::<char>::empty(),
        args@.len() >= components(dir@).len() ==> normalized_dir@ == join_spaces(components(dir@)),
        components(dir@).len() == 0 ==> normalized_dir@ == Seq::<char>::empty(),
{
    let num_terms = args.len();
    let ranges = component_ranges(dir);
    let total = ranges.len();
    proof {
        assert(dir@.take(dir@.len() as int) =~= dir@);
        normalized_without_terms(dir@);
        if args@.len() >= components(dir@).len() {
            normalized_clamps_terms(args@.len(), dir@);
        }
    }
    let slice_len = if num_terms >= total {
        0
    } else {
        total - num_terms
    };
    join_components(dir, &ranges, slice_len)
}

/// Score a query against a directory.
pub fn score(args: &[String], dir: &Dir) -> (s: u32)
    ensures
        s == score_of(words(args@), dir@.path),
        s <= MAX_SCORE,
{
    let normalized_dir = normalize_directory(args, dir.dir.as_str());
    let query = join_terms(args);
    let fuzz_score = token_sort_ratio(query.as_str(), normalized_dir.as_str(), true, true);
    fuzz_score as u32
}

/// A query without words is compared with the empty string, whatever the
/// path.
pub proof fn normalized_without_terms(path: Seq<char>)
    ensures
        normalized(0, path) == Seq::<char>::empty(),
{
}

/// A query with at least as many words as the path has components is
/// compared with all of them: the count is clamped. For a path without
/// components that is the empty string.
pub proof fn normalized_clamps_terms(terms: nat, path: Seq<char>)
    requires
        terms >= components(path).len(),
    ensures
        normalized(terms, path) == join_spaces(components(path)),
        normalized(terms, path) == normalized(components(path).len(), path),
        components(path).len() == 0 ==> normalized(terms, path) == Seq::<char>::empty(),
{
    let parts = components(path);
    assert(parts.skip(0) =~= parts);
}

} // verus!
