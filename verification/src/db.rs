//! The history of visited directories: its rows and the operations on them.

use crate::error::JumpError;
use vstd::prelude::*;

verus! {

/// What a `Dir` stands for in contracts: the row with its path as a sequence
/// of characters.
pub struct Record {
    pub id: i64,
    pub path: Seq<char>,
    pub access_count: i64,
    pub last_accessed: i64,
}

/// One tracked directory with its usage statistics.
#[derive(Debug, PartialEq, Eq)]
pub struct Dir {
    pub id: i64,
    pub dir: String,
    pub access_count: i64,
    pub last_accessed: i64,
}

impl View for Dir {
    type V = Record;

    open spec fn view(&self) -> Record {
        Record {
            id: self.id,
            path: self.dir@,
            access_count: self.access_count,
            last_accessed: self.last_accessed,
        }
    }
}

impl Clone for Dir {
    /// A copy that stands for the same row.
    fn clone(&self) -> (copy: Dir)
        ensures
            copy@ == self@,
    {
        Dir {
            id: self.id,
            dir: self.dir.clone(),
            access_count: self.access_count,
            last_accessed: self.last_accessed,
        }
    }
}

/// The largest identifier of a history, or none where the history is
/// empty.
#[derive(Clone, Copy, Debug, PartialEq, Eq)]
pub struct DirId {
    id: Option<i64>,
}

impl View for DirId {
    type V = Option<i64>;

    closed spec fn view(&self) -> Option<i64> {
        self.id
    }
}

/// The identifier for a new row of a history whose largest identifier is
/// `max`: one more than it, or 1 in an empty history. There is none where
/// that would be negative or beyond the range of identifiers.
pub open spec fn next_id(max: Option<i64>) -> Option<i64> {
    match max {
        None => Some(1),
        Some(m) => if -1 <= m < i64::MAX {
            Some((m + 1) as i64)
        } else {
            None
        },
    }
}

impl DirId {
    /// Wraps the largest identifier that a history was found to hold.
    pub fn new(id: Option<i64>) -> (max: DirId)
        ensures
            max@ == id,
    {
        DirId { id }
    }

    /// The largest identifier itself.
    pub fn get(&self) -> (id: Option<i64>)
        ensures
            id == self@,
    {
        self.id
    }

    /// The identifier for the next new row, if there is one.
    pub fn next(&self) -> (id: Option<i64>)
        ensures
            id == next_id(self@),
    {
        match self.id {
            None => Some(1),
            Some(m) => if -1 <= m && m < i64::MAX {
                Some(m + 1)
            } else {
                None
            },
        }
    }
}

/// The rows of the history, in the order in which their identifiers were
/// first stored. No two rows share an identifier.
pub struct History {
    rows: Vec<Dir>,
}

impl View for History {
    type V = Seq<Record>;

    closed spec fn view(&self) -> Seq<Record> {
        Seq::new(self.rows@.len(), |i: int| self.rows@[i]@)
    }
}

/// Whether `i` is the position of the first row of `rows` with the path
/// `path`.
pub open spec fn is_first_with_path(rows: Seq<Record>, path: Seq<char>, i: int) -> bool {
    &&& 0 <= i < rows.len()
    &&& rows[i].path == path
    &&& forall|j: int| 0 <= j < i ==> (#[trigger] rows[j]).path != path
}

/// The position of the first row of `rows` with the path `path`, if there
/// is one.
pub open spec fn position_of_path(rows: Seq<Record>, path: Seq<char>) -> Option<int> {
    if exists|i: int| is_first_with_path(rows, path, i) {
        Some(choose|i: int| is_first_with_path(rows, path, i))
    } else {
        None
    }
}

/// Whether `i` is the position of the first row of `rows` with the
/// identifier `id`.
pub open spec fn is_first_with_id(rows: Seq<Record>, id: i64, i: int) -> bool {
    &&& 0 <= i < rows.len()
    &&& rows[i].id == id
    &&& forall|j: int| 0 <= j < i ==> (#[trigger] rows[j]).id != id
}

/// The position of the first row of `rows` with the identifier `id`, if
/// there is one.
pub open spec fn position_of_id(rows: Seq<Record>, id: i64) -> Option<int> {
    if exists|i: int| is_first_with_id(rows, id, i) {
        Some(choose|i: int| is_first_with_id(rows, id, i))
    } else {
        None
    }
}

/// No two rows of `rows` share an identifier.
pub open spec fn distinct_ids(rows: Seq<Record>) -> bool {
    forall|i: int, j: int|
        0 <= i < j < rows.len() ==> (#[trigger] rows[i]).id != (#[trigger] rows[j]).id
}

/// Whether `max` is the largest identifier among `rows`.
pub open spec fn is_largest_id(rows: Seq<Record>, max: i64) -> bool {
    &&& exists|i: int| 0 <= i < rows.len() && (#[trigger] rows[i]).id == max
    &&& forall|j: int| 0 <= j < rows.len() ==> (#[trigger] rows[j]).id <= max
}

/// The largest identifier among `rows`, if there is any row.
pub open spec fn largest_id(rows: Seq<Record>) -> Option<i64> {
    if exists|max: i64| is_largest_id(rows, max) {
        Some(choose|max: i64| is_largest_id(rows, max))
    } else {
        None
    }
}

/// `rows` after `record` was stored under its identifier: it takes the place
/// of the row that had this identifier, or comes last where there was none.
pub open spec fn upsert(rows: Seq<Record>, record: Record) -> Seq<Record> {
    match position_of_id(rows, record.id) {
        Some(i) => rows.update(i, record),
        None => rows.push(record),
    }
}

/// Where some row has a path, some row is the first to have it.
proof fn lemma_some_row_is_first_with_path(rows: Seq<Record>, path: Seq<char>, i: int)
    requires
        0 <= i < rows.len(),
        rows[i].path == path,
    ensures
        exists|k: int| is_first_with_path(rows, path, k),
    decreases i,
{
    if exists|j: int| 0 <= j < i && (#[trigger] rows[j]).path == path {
        let j = choose|j: int| 0 <= j < i && (#[trigger] rows[j]).path == path;
        lemma_some_row_is_first_with_path(rows, path, j);
    } else {
        assert(is_first_with_path(rows, path, i));
    }
}

/// Where some row has an identifier, some row is the first to have it.
proof fn lemma_some_row_is_first_with_id(rows: Seq<Record>, id: i64, i: int)
    requires
        0 <= i < rows.len(),
        rows[i].id == id,
    ensures
        exists|k: int| is_first_with_id(rows, id, k),
    decreases i,
{
    if exists|j: int| 0 <= j < i && (#[trigger] rows[j]).id == id {
        let j = choose|j: int| 0 <= j < i && (#[trigger] rows[j]).id == id;
        lemma_some_row_is_first_with_id(rows, id, j);
    } else {
        assert(is_first_with_id(rows, id, i));
    }
}

/// Where there is a row, some identifier is the largest.
proof fn lemma_some_id_is_largest(rows: Seq<Record>)
    requires
        rows.len() > 0,
    ensures
        exists|max: i64| is_largest_id(rows, max),
    decreases rows.len(),
{
    let front = rows.drop_last();
    let last = rows.last();
    if front.len() == 0 {
        assert(is_largest_id(rows, last.id));
    } else {
        lemma_some_id_is_largest(front);
        let m = choose|m: i64| is_largest_id(front, m);
        let w = choose|w: int| 0 <= w < front.len() && (#[trigger] front[w]).id == m;
        if last.id > m {
            assert forall|j: int| 0 <= j < rows.len() implies (#[trigger] rows[j]).id
                <= last.id by {
                if j < front.len() {
                    assert(front[j].id <= m);
                }
            }
            assert(is_largest_id(rows, last.id));
        } else {
            assert forall|j: int| 0 <= j < rows.len() implies (#[trigger] rows[j]).id <= m by {
                if j < front.len() {
                    assert(front[j].id <= m);
                }
            }
            assert(is_largest_id(rows, m));
        }
    }
}

/// `position_of_path` names the one position that is the first with the
/// path, and none exactly where no row has the path.
pub proof fn lemma_position_of_path(rows: Seq<Record>, path: Seq<char>)
    ensures
        forall|i: int|
            is_first_with_path(rows, path, i) <==> position_of_path(rows, path) == Some(i),
        position_of_path(rows, path) is None <==> forall|j: int|
            0 <= j < rows.len() ==> (#[trigger] rows[j]).path != path,
{
    assert forall|i: int| is_first_with_path(rows, path, i) implies position_of_path(rows, path)
        == Some(i) by {
        // of two first positions, neither comes before the other
        let chosen = choose|c: int| is_first_with_path(rows, path, c);
        assert(chosen == i);
    }
    if position_of_path(rows, path) is None {
        assert forall|j: int| 0 <= j < rows.len() implies (#[trigger] rows[j]).path != path by {
            if rows[j].path == path {
                lemma_some_row_is_first_with_path(rows, path, j);
            }
        }
    }
}

/// `position_of_id` names the one position that is the first with the
/// identifier, and none exactly where no row has the identifier.
pub proof fn lemma_position_of_id(rows: Seq<Record>, id: i64)
    ensures
        forall|i: int| is_first_with_id(rows, id, i) <==> position_of_id(rows, id) == Some(i),
        position_of_id(rows, id) is None <==> forall|j: int|
            0 <= j < rows.len() ==> (#[trigger] rows[j]).id != id,
{
    assert forall|i: int| is_first_with_id(rows, id, i) implies position_of_id(rows, id) == Some(
        i,
    ) by {
        // of two first positions, neither comes before the other
        let chosen = choose|c: int| is_first_with_id(rows, id, c);
        assert(chosen == i);
    }
    if position_of_id(rows, id) is None {
        assert forall|j: int| 0 <= j < rows.len() implies (#[trigger] rows[j]).id != id by {
            if rows[j].id == id {
                lemma_some_row_is_first_with_id(rows, id, j);
            }
        }
    }
}

/// `largest_id` names the one identifier that is the largest, and none
/// exactly where there is no row.
pub proof fn lemma_largest_id(rows: Seq<Record>)
    ensures
        forall|max: i64| is_largest_id(rows, max) <==> largest_id(rows) == Some(max),
        largest_id(rows) is None <==> rows.len() == 0,
{
    assert forall|max: i64| is_largest_id(rows, max) implies largest_id(rows) == Some(max) by {
        // of two largest identifiers, neither is below the other
        let chosen = choose|c: i64| is_largest_id(rows, c);
        assert(chosen == max);
    }
    if rows.len() > 0 {
        lemma_some_id_is_largest(rows);
    }
}

impl History {
    /// Whether the history is valid: no two rows share an identifier.
    pub open spec fn wf(&self) -> bool {
        distinct_ids(self@)
    }

    /// The empty history.
    pub fn new() -> (history: History)
        ensures
            history.wf(),
            history@ == Seq::<Record>::empty(),
    {
        History { rows: Vec::new() }
    }

    /// The number of rows.
    pub fn len(&self) -> (n: usize)
        ensures
            n == self@.len(),
    {
        self.rows.len()
    }

    /// The row at position `i`.
    pub fn row(&self, i: usize) -> (dir: &Dir)
        requires
            i < self@.len(),
        ensures
            dir@ == self@[i as int],
    {
        &self.rows[i]
    }

    /// The largest identifier among the rows.
    pub fn max_id(&self) -> (max: DirId)
        ensures
            max@ == largest_id(self@),
    {
        let mut max: Option<i64> = None;
        let mut i: usize = 0;
        while i < self.rows.len()
            invariant
                i <= self.rows@.len(),
                self@.len() == self.rows@.len(),
                match max {
                    None => i == 0,
                    Some(m) => is_largest_id(self@.take(i as int), m),
                },
            decreases self.rows@.len() - i,
        {
            let id = self.rows[i].id;
            let ghost seen = self@.take(i as int);
            let ghost now = self@.take(i + 1);
            proof {
                assert(now[i as int].id == id);
                assert forall|j: int| 0 <= j < i implies (#[trigger] now[j]) == seen[j] by {}
            }
            match max {
                None => {
                    max = Some(id);
                },
                Some(m) => {
                    if id > m {
                        max = Some(id);
                    } else {
                        proof {
                            // the row that holds `m` is still among the rows seen
                            let at = choose|w: int|
                                0 <= w < seen.len() && (#[trigger] seen[w]).id == m;
                            assert(now[at].id == m);
                        }
                    }
                },
            }
            i += 1;
        }
        proof {
            assert(self@.take(i as int) =~= self@);
            lemma_largest_id(self@);
        }
        DirId { id: max }
    }
}

/// Fetch the row of a directory from the history by its name: the first row
/// with that path.
pub fn get_dir_by_name(history: &History, dir: &str) -> (found: Result<Dir, JumpError>)
    ensures
        match found {
            Ok(row) => position_of_path(history@, dir@) matches Some(i) && row@ == history@[i],
            Err(e) => position_of_path(history@, dir@) is None && e == JumpError::NotFound,
        },
{
    let wanted = dir.to_owned();
    let mut i: usize = 0;
    while i < history.rows.len()
        invariant
            i <= history.rows@.len(),
            history@.len() == history.rows@.len(),
            wanted@ == dir@,
            forall|j: int| 0 <= j < i ==> (#[trigger] history@[j]).path != dir@,
        decreases history.rows@.len() - i,
    {
        if history.rows[i].dir == wanted {
            proof {
                assert(is_first_with_path(history@, dir@, i as int));
                lemma_position_of_path(history@, dir@);
            }
            return Ok(history.rows[i].clone());
        }
        i += 1;
    }
    proof {
        lemma_position_of_path(history@, dir@);
    }
    Err(JumpError::NotFound)
}

/// Generate a new Dir: a row for the directory `dir` that was never visited,
/// under the identifier that follows the largest one so far.
pub fn make_new_dir(dir: &str, max: &DirId) -> (row: Dir)
    requires
        next_id(max@) is Some,
    ensures
        row@ == (Record {
            id: next_id(max@).unwrap(),
            path: dir@,
            access_count: 0,
            last_accessed: 0,
        }),
{
    let id = match max.id {
        // New ID is max ID plus one
        Some(i) => i + 1,
        // No IDs in the history, so first id is 1
        None => 1,
    };
    Dir { id, dir: dir.to_owned(), access_count: 0, last_accessed: 0 }
}

/// Update or insert a row: `dir` takes the place of the row with its
/// identifier, or comes last where no row has it.
pub fn update_or_insert_dir(history: &mut History, dir: &Dir)
    requires
        old(history).wf(),
    ensures
        final(history).wf(),
        final(history)@ == upsert(old(history)@, dir@),
{
    let ghost before = history@;
    let mut i: usize = 0;
    while i < history.rows.len()
        invariant
            i <= history.rows@.len(),
            before == old(history)@,
            history@ == before,
            history@.len() == history.rows@.len(),
            distinct_ids(before),
            forall|j: int| 0 <= j < i ==> (#[trigger] before[j]).id != dir.id,
        decreases history.rows@.len() - i,
    {
        if history.rows[i].id == dir.id {
            history.rows.set(i, dir.clone());
            proof {
                assert(is_first_with_id(before, dir.id, i as int));
                lemma_position_of_id(before, dir.id);
                assert(history@ =~= before.update(i as int, dir@));
            }
            return ;
        }
        i += 1;
    }
    history.rows.push(dir.clone());
    proof {
        lemma_position_of_id(before, dir.id);
        assert(history@ =~= before.push(dir@));
    }
}

/// Storing a row keeps the identifiers of a history distinct.
pub proof fn upsert_keeps_ids_distinct(rows: Seq<Record>, record: Record)
    requires
        distinct_ids(rows),
    ensures
        distinct_ids(upsert(rows, record)),
{
    lemma_position_of_id(rows, record.id);
}

/// A row that was stored is the row that a lookup by its path finds again,
/// with the same identifier and the same statistics, as long as no row
/// under another identifier has the same path.
pub proof fn stored_row_is_found_by_path(rows: Seq<Record>, record: Record)
    requires
        forall|j: int|
            0 <= j < rows.len() && (#[trigger] rows[j]).path == record.path ==> rows[j].id
                == record.id,
    ensures
        position_of_path(upsert(rows, record), record.path) matches Some(i) && upsert(
            rows,
            record,
        )[i] == record,
{
    let after = upsert(rows, record);
    let at = match position_of_id(rows, record.id) {
        Some(k) => k,
        None => rows.len() as int,
    };
    lemma_position_of_id(rows, record.id);
    assert(is_first_with_path(after, record.path, at));
    lemma_position_of_path(after, record.path);
}

} // verus!
