//! Paths and queries as sequences of characters: the components of a path
//! and the joining of words with single spaces.

use vstd::prelude::*;
use vstd::std_specs::iter::IteratorSpec;
use vstd::string::*;

verus! {

/// The character that parts the components of a path.
pub const SEPARATOR: char = '/';

/// The components of `path`, in order: the non-empty pieces that lie between
/// separators. A character that is no separator either continues the
/// component that the character before it belongs to, or begins a new one.
pub open spec fn components(path: Seq<char>) -> Seq<Seq<char>>
    decreases path.len(),
{
    if path.len() == 0 {
        Seq::empty()
    } else {
        let before = components(path.drop_last());
        if path.last() == SEPARATOR {
            before
        } else if path.len() >= 2 && path[path.len() - 2] != SEPARATOR {
            before.update(before.len() - 1, before.last().push(path.last()))
        } else {
            before.push(seq![path.last()])
        }
    }
}

/// `parts` written one after the other with a single space between
/// neighbours.
pub open spec fn join_spaces(parts: Seq<Seq<char>>) -> Seq<char>
    decreases parts.len(),
{
    if parts.len() == 0 {
        Seq::empty()
    } else if parts.len() == 1 {
        parts[0]
    } else {
        join_spaces(parts.drop_last()) + seq![' '] + parts.last()
    }
}

/// Every component is non-empty and holds no separator, and a path that
/// does not end in a separator ends in its last component.
pub proof fn components_are_nonempty_runs(path: Seq<char>)
    ensures
        forall|k: int|
            0 <= k < components(path).len() ==> (#[trigger] components(path)[k]).len() > 0,
        forall|k: int, i: int|
            0 <= k < components(path).len() && 0 <= i < components(path)[k].len()
                ==> #[trigger] components(path)[k][i] != SEPARATOR,
        path.len() > 0 && path.last() != SEPARATOR ==> components(path).len() > 0,
    decreases path.len(),
{
    if path.len() > 0 {
        let before = components(path.drop_last());
        let all = components(path);
        components_are_nonempty_runs(path.drop_last());
        assert forall|k: int| 0 <= k < all.len() implies (#[trigger] all[k]).len() > 0 by {
            if k < before.len() {
                assert(before[k].len() > 0);
            }
        }
        assert forall|k: int, i: int|
            0 <= k < all.len() && 0 <= i < all[k].len() implies #[trigger] all[k][i]
            != SEPARATOR by {
            if k < before.len() && i < before[k].len() {
                assert(before[k][i] != SEPARATOR);
            }
        }
    }
}

/// Whether `ranges` marks, by the positions of their first character and of
/// the character after their last, the components of the first `upto`
/// characters of `path`.
pub(crate) open spec fn marks_components(
    ranges: Seq<(usize, usize)>,
    path: Seq<char>,
    upto: int,
) -> bool {
    &&& ranges.len() == components(path.take(upto)).len()
    &&& forall|k: int|
        0 <= k < ranges.len() ==> {
            &&& (#[trigger] ranges[k]).0 < ranges[k].1 <= upto
            &&& path.subrange(ranges[k].0 as int, ranges[k].1 as int) == components(
                path.take(upto),
            )[k]
        }
}

/// Finds the components of `path` in one pass over its characters.
pub(crate) fn component_ranges(path: &str) -> (ranges: Vec<(usize, usize)>)
    ensures
        marks_components(ranges@, path@, path@.len() as int),
{
    broadcast use group_string_axioms;

    let n = path.unicode_len();
    let mut rest = path.chars();
    let mut ranges: Vec<(usize, usize)> = Vec::new();
    let mut i: usize = 0;
    let mut in_component = false;
    while i < n
        invariant
            n == path@.len(),
            i <= n,
            rest.remaining() == path@.skip(i as int),
            in_component <==> (i > 0 && path@[i - 1] != SEPARATOR),
            in_component ==> ranges@.len() > 0 && ranges@.last().1 == i,
            marks_components(ranges@, path@, i as int),
        decreases n - i,
    {
        proof {
            assert(path@.take(i + 1).drop_last() =~= path@.take(i as int));
        }
        let c = rest.next().unwrap();
        if c == SEPARATOR {
            in_component = false;
        } else if in_component {
            // the component that is under way grows by this character
            let last = ranges.len() - 1;
            let start = ranges[last].0;
            ranges.set(last, (start, i + 1));
            proof {
                assert(path@.subrange(start as int, i + 1) =~= path@.subrange(
                    start as int,
                    i as int,
                ).push(c));
            }
        } else {
            // a new component begins with this character
            ranges.push((i, i + 1));
            in_component = true;
            proof {
                assert(path@.subrange(i as int, i + 1) =~= seq![c]);
            }
        }
        i += 1;
    }
    ranges
}

/// The words of a query as sequences of characters.
pub open spec fn words(terms: Seq<String>) -> Seq<Seq<char>> {
    Seq::new(terms.len(), |i: int| terms[i]@)
}

/// Joins the words of a query with single spaces.
pub fn join_terms(terms: &[String]) -> (joined: String)
    ensures
        joined@ == join_spaces(words(terms@)),
{
    let ghost parts = words(terms@);
    let mut joined = String::new();
    let mut k: usize = 0;
    while k < terms.len()
        invariant
            k <= terms@.len(),
            parts == words(terms@),
            joined@ == join_spaces(parts.take(k as int)),
        decreases terms@.len() - k,
    {
        proof {
            reveal_strlit(" ");
            assert(parts.take(k + 1).drop_last() =~= parts.take(k as int));
        }
        if k > 0 {
            joined.append(" ");
        }
        joined.append(terms[k].as_str());
        k += 1;
    }
    assert(parts.take(k as int) =~= parts);
    joined
}

/// Joins the components of `path` from the one at index `from` on with
/// single spaces.
pub(crate) fn join_components(path: &str, ranges: &Vec<(usize, usize)>, from: usize) -> (joined:
    String)
    requires
        marks_components(ranges@, path@, path@.len() as int),
        from <= ranges@.len(),
    ensures
        joined@ == join_spaces(components(path@).skip(from as int)),
{
    let ghost parts = components(path@).skip(from as int);
    let mut joined = String::new();
    let mut k: usize = from;
    while k < ranges.len()
        invariant
            from <= k <= ranges@.len(),
            marks_components(ranges@, path@, path@.len() as int),
            path@.take(path@.len() as int) == path@,
            parts == components(path@).skip(from as int),
            joined@ == join_spaces(parts.take(k - from)),
        decreases ranges@.len() - k,
    {
        proof {
            reveal_strlit(" ");
            assert(parts.take(k + 1 - from).drop_last() =~= parts.take(k - from));
        }
        if k > from {
            joined.append(" ");
        }
        let (start, end) = ranges[k];
        joined.append(path.substring_char(start, end));
        k += 1;
    }
    assert(parts.take(k - from) =~= parts);
    joined
}

} // verus!
