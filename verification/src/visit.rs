//! The recording of a visit to a directory.

use crate::db::{
    distinct_ids, get_dir_by_name, largest_id, lemma_largest_id, lemma_position_of_id,
    lemma_position_of_path, make_new_dir, next_id, position_of_path, update_or_insert_dir, upsert,
    Dir, History, Record,
};
use vstd::prelude::*;

verus! {

/// The row `record` after one more visit, made at the time `now`.
pub open spec fn visited(record: Record, now: i64) -> Record {
    Record {
        id: record.id,
        path: record.path,
        access_count: (record.access_count + 1) as i64,
        last_accessed: now,
    }
}

/// The row that a visit to `path` starts from: the first row that the
/// history has for the path or, where it has none, a new row without visits
/// under the next identifier. There is none where the path is new and no
/// identifier is left for it.
pub open spec fn entry_for(rows: Seq<Record>, path: Seq<char>) -> Option<Record> {
    match position_of_path(rows, path) {
        Some(i) => Some(rows[i]),
        None => match next_id(largest_id(rows)) {
            Some(id) => Some(Record { id, path, access_count: 0, last_accessed: 0 }),
            None => None,
        },
    }
}

/// Whether a visit to `path` can be recorded: there is a row to start from,
/// and its count of visits can still grow.
pub open spec fn can_record_visit(rows: Seq<Record>, path: Seq<char>) -> bool {
    entry_for(rows, path) matches Some(record) && record.access_count < i64::MAX
}

/// What a recorded visit to `path` at the time `now` leaves in `stored`, the
/// row that is stored: the path and the time of the visit; for a path that
/// the history `rows` held, the identifier of its row and one visit more
/// than that row had; for a new path, one visit, and an identifier one
/// above the largest of the history, or 1 where the history was empty.
pub open spec fn counts_visit(
    rows: Seq<Record>,
    path: Seq<char>,
    now: i64,
    stored: Record,
) -> bool {
    &&& stored.path == path
    &&& stored.last_accessed == now
    &&& match position_of_path(rows, path) {
        Some(at) => stored.id == rows[at].id && stored.access_count == rows[at].access_count + 1,
        None => stored.access_count == 1 && match largest_id(rows) {
            Some(max) => stored.id == max + 1,
            None => rows.len() == 0 && stored.id == 1,
        },
    }
}

impl Dir {
    /// Counts one more visit, made at the time `now`.
    pub fn visit(&mut self, now: i64)
        requires
            old(self).access_count < i64::MAX,
        ensures
            final(self)@ == visited(old(self)@, now),
    {
        self.last_accessed = now;
        self.access_count += 1;
    }
}

/// Records a visit to `path` at the time `now` where that is possible, and
/// hands back the row as it is stored; else leaves the history as it is.
pub fn try_record_visit(history: &mut History, path: &str, now: i64) -> (stored: Option<Dir>)
    requires
        old(history).wf(),
    ensures
        final(history).wf(),
        match stored {
            Some(row) => {
                &&& can_record_visit(old(history)@, path@)
                &&& row@ == visited(entry_for(old(history)@, path@).unwrap(), now)
                &&& final(history)@ == upsert(old(history)@, row@)
                &&& counts_visit(old(history)@, path@, now, row@)
            },
            None => !can_record_visit(old(history)@, path@) && final(history)@ == old(history)@,
        },
{
    proof {
        if can_record_visit(history@, path@) {
            if position_of_path(history@, path@) is Some {
                visit_to_known_path_updates_row(history@, path@, now);
            } else {
                visit_to_new_path_adds_row(history@, path@, now);
            }
        }
    }
    // Fetch the row of this directory, or start a new one
    let mut row = match get_dir_by_name(history, path) {
        Ok(row) => row,
        Err(_) => {
            let max = history.max_id();
            if max.next().is_none() {
                return None;
            }
            make_new_dir(path, &max)
        },
    };
    if row.access_count == i64::MAX {
        return None;
    }
    // Increment access count & update access time
    row.visit(now);
    // Insert or update the row
    update_or_insert_dir(history, &row);
    Some(row)
}

/// Records a visit to `path` at the time `now`: the row of the path, or a
/// new row where the path was never visited, counts one more visit and is
/// stored under its identifier. Hands back the row as it is stored.
pub fn record_visit(history: &mut History, path: &str, now: i64) -> (stored: Dir)
    requires
        old(history).wf(),
        can_record_visit(old(history)@, path@),
    ensures
        final(history).wf(),
        stored@ == visited(entry_for(old(history)@, path@).unwrap(), now),
        final(history)@ == upsert(old(history)@, stored@),
        counts_visit(old(history)@, path@, now, stored@),
{
    try_record_visit(history, path, now).unwrap()
}

/// A visit to a path that the history does not hold yet stores, as the last
/// row, a row with one visit under an identifier one above the largest so
/// far, or under 1 in an empty history.
pub proof fn visit_to_new_path_adds_row(rows: Seq<Record>, path: Seq<char>, now: i64)
    requires
        position_of_path(rows, path) is None,
        can_record_visit(rows, path),
    ensures
        ({
            let stored = visited(entry_for(rows, path).unwrap(), now);
            &&& stored.access_count == 1
            &&& stored.last_accessed == now
            &&& stored.path == path
            &&& match largest_id(rows) {
                Some(max) => stored.id == max + 1,
                None => stored.id == 1,
            }
            &&& rows.len() == 0 <==> largest_id(rows) is None
            &&& upsert(rows, stored) == rows.push(stored)
        }),
{
    let stored = visited(entry_for(rows, path).unwrap(), now);
    lemma_largest_id(rows);
    lemma_position_of_id(rows, stored.id);
}

/// A visit to a path that the history holds stores, in the place of its
/// row, that row with one more visit and the time of this visit, under the
/// identifier it had. The other rows stay as they are.
pub proof fn visit_to_known_path_updates_row(rows: Seq<Record>, path: Seq<char>, now: i64)
    requires
        distinct_ids(rows),
        position_of_path(rows, path) is Some,
        can_record_visit(rows, path),
    ensures
        ({
            let at = position_of_path(rows, path).unwrap();
            let stored = visited(entry_for(rows, path).unwrap(), now);
            &&& 0 <= at < rows.len()
            &&& stored.id == rows[at].id
            &&& stored.path == path
            &&& stored.access_count == rows[at].access_count + 1
            &&& stored.last_accessed == now
            &&& upsert(rows, stored) == rows.update(at, stored)
        }),
{
    let stored = visited(entry_for(rows, path).unwrap(), now);
    lemma_position_of_path(rows, path);
    lemma_position_of_id(rows, stored.id);
}

} // verus!
