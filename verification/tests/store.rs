use jump::db::{get_dir_by_name, make_new_dir, update_or_insert_dir, Dir, DirId, History};
use jump::error::JumpError;

fn row(id: i64, dir: &str, access_count: i64, last_accessed: i64) -> Dir {
    Dir {
        id,
        dir: dir.to_string(),
        access_count,
        last_accessed,
    }
}

fn history_of(rows: &[Dir]) -> History {
    let mut history = History::new();
    for r in rows {
        update_or_insert_dir(&mut history, r);
    }
    history
}

#[test]
fn new_history_is_empty() {
    let history = History::new();
    assert_eq!(history.len(), 0);
    assert_eq!(history.max_id().get(), None);
}

#[test]
fn insert_appends_rows_with_new_identifiers() {
    let history = history_of(&[row(1, "/a", 1, 10), row(2, "/b", 2, 20), row(7, "/c", 3, 30)]);
    assert_eq!(history.len(), 3);
    assert_eq!(*history.row(0), row(1, "/a", 1, 10));
    assert_eq!(*history.row(1), row(2, "/b", 2, 20));
    assert_eq!(*history.row(2), row(7, "/c", 3, 30));
}

#[test]
fn update_replaces_the_row_with_the_same_identifier() {
    let mut history = history_of(&[row(1, "/a", 1, 10), row(2, "/b", 2, 20), row(3, "/c", 3, 30)]);
    update_or_insert_dir(&mut history, &row(2, "/b", 5, 99));
    assert_eq!(history.len(), 3);
    assert_eq!(*history.row(0), row(1, "/a", 1, 10));
    assert_eq!(*history.row(1), row(2, "/b", 5, 99));
    assert_eq!(*history.row(2), row(3, "/c", 3, 30));
}

#[test]
fn update_replaces_the_whole_row() {
    let mut history = history_of(&[row(4, "/old", 8, 80)]);
    update_or_insert_dir(&mut history, &row(4, "/new", 0, 0));
    assert_eq!(history.len(), 1);
    assert_eq!(*history.row(0), row(4, "/new", 0, 0));
}

#[test]
fn max_id_is_the_largest_identifier() {
    let history = history_of(&[row(3, "/a", 0, 0), row(9, "/b", 0, 0), row(5, "/c", 0, 0)]);
    assert_eq!(history.max_id().get(), Some(9));
    let negative = history_of(&[row(-4, "/a", 0, 0), row(-2, "/b", 0, 0)]);
    assert_eq!(negative.max_id().get(), Some(-2));
}

#[test]
fn next_identifier_follows_the_largest() {
    assert_eq!(DirId::new(None).next(), Some(1));
    assert_eq!(DirId::new(Some(1)).next(), Some(2));
    assert_eq!(DirId::new(Some(41)).next(), Some(42));
    assert_eq!(DirId::new(Some(0)).next(), Some(1));
    assert_eq!(DirId::new(Some(-1)).next(), Some(0));
    assert_eq!(DirId::new(Some(i64::MAX - 1)).next(), Some(i64::MAX));
}

#[test]
fn no_next_identifier_where_it_would_be_negative_or_too_large() {
    assert_eq!(DirId::new(Some(-2)).next(), None);
    assert_eq!(DirId::new(Some(i64::MIN)).next(), None);
    assert_eq!(DirId::new(Some(i64::MAX)).next(), None);
}

#[test]
fn dir_id_holds_what_it_was_made_with() {
    assert_eq!(DirId::new(Some(12)).get(), Some(12));
    assert_eq!(DirId::new(None).get(), None);
    assert_eq!(DirId::new(Some(3)), DirId::new(Some(3)).clone());
}

#[test]
fn get_dir_by_name_finds_the_row() {
    let history = history_of(&[row(1, "/a", 1, 10), row(2, "/b", 2, 20), row(3, "/c", 3, 30)]);
    assert_eq!(get_dir_by_name(&history, "/b"), Ok(row(2, "/b", 2, 20)));
    assert_eq!(get_dir_by_name(&history, "/a"), Ok(row(1, "/a", 1, 10)));
    assert_eq!(get_dir_by_name(&history, "/c"), Ok(row(3, "/c", 3, 30)));
}

#[test]
fn get_dir_by_name_takes_the_first_of_rows_with_one_path() {
    let history = history_of(&[row(1, "/a", 1, 10), row(2, "/dup", 2, 20), row(3, "/dup", 3, 30)]);
    assert_eq!(get_dir_by_name(&history, "/dup"), Ok(row(2, "/dup", 2, 20)));
}

#[test]
fn get_dir_by_name_reports_a_path_that_is_not_there() {
    let history = history_of(&[row(1, "/a", 1, 10)]);
    assert_eq!(get_dir_by_name(&history, "/b"), Err(JumpError::NotFound));
    assert_eq!(get_dir_by_name(&history, "/a/"), Err(JumpError::NotFound));
    assert_eq!(get_dir_by_name(&History::new(), "/a"), Err(JumpError::NotFound));
}

#[test]
fn make_new_dir_in_empty_history_has_identifier_one() {
    let dir = make_new_dir("/home/ryanw", &History::new().max_id());
    assert_eq!(dir, row(1, "/home/ryanw", 0, 0));
}

#[test]
fn make_new_dir_takes_the_identifier_after_the_largest() {
    let history = history_of(&[row(3, "/a", 0, 0), row(9, "/b", 0, 0), row(5, "/c", 0, 0)]);
    let dir = make_new_dir("/d", &history.max_id());
    assert_eq!(dir, row(10, "/d", 0, 0));
    assert_eq!(make_new_dir("/e", &DirId::new(Some(-1))), row(0, "/e", 0, 0));
}

#[test]
fn stored_row_is_fetched_again_by_its_path() {
    let mut history = history_of(&[row(1, "/a", 1, 10), row(2, "/b", 2, 20)]);
    let stored = row(3, "/home/ryanw/Dropbox/Projects", 3, 1000);
    update_or_insert_dir(&mut history, &stored);
    let fetched = get_dir_by_name(&history, "/home/ryanw/Dropbox/Projects").unwrap();
    assert_eq!(fetched.id, 3);
    assert_eq!(fetched.access_count, 3);
    assert_eq!(fetched.last_accessed, 1000);
    assert_eq!(fetched, stored);
}

#[test]
fn updated_row_is_fetched_again_by_its_path() {
    let mut history = history_of(&[row(1, "/a", 1, 10), row(2, "/b", 2, 20)]);
    update_or_insert_dir(&mut history, &row(1, "/a", 7, 70));
    assert_eq!(get_dir_by_name(&history, "/a"), Ok(row(1, "/a", 7, 70)));
}

#[test]
fn clone_of_a_row_is_the_same_row() {
    let dir = row(6, "/usr/lib", 4, 400);
    assert_eq!(dir.clone(), dir);
}
