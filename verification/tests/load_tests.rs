use dumpflow::load::{
    insert_statement, prepare_rows, run_load, scope_row, CheckpointTracker, LoadErr, StoreModel,
};

fn row(fields: &[&str]) -> Vec<Vec<u8>> {
    fields.iter().map(|f| f.as_bytes().to_vec()).collect()
}

#[test]
fn scoped_row_gains_site_id_in_front() {
    let r = scope_row(b"site42", &row(&["a", "b"]));
    assert_eq!(r, row(&["site42", "a", "b"]));
}

#[test]
fn scoped_rows_gain_exactly_one_field() {
    let rows = vec![row(&["a", "b"]), row(&["c"])];
    let prepared = prepare_rows(&rows, true, b"site42");
    assert_eq!(prepared.len(), 2);
    for (orig, new) in rows.iter().zip(prepared.iter()) {
        assert_eq!(new.len(), orig.len() + 1);
        assert_eq!(new[0], b"site42".to_vec());
        assert_eq!(&new[1..], &orig[..]);
    }
}

#[test]
fn unscoped_rows_are_unchanged() {
    let rows = vec![row(&["a", "b"]), row(&["c", "d"])];
    let prepared = prepare_rows(&rows, false, b"site42");
    assert_eq!(prepared, rows);
}

#[test]
fn insert_statement_text() {
    let stmt = insert_statement(b"items", 3);
    assert_eq!(stmt, b"INSERT INTO `items` VALUES (?, ?, ?)".to_vec());
    let one = insert_statement(b"t", 1);
    assert_eq!(one, b"INSERT INTO `t` VALUES (?)".to_vec());
}

#[test]
fn checkpoints_flush_in_groups() {
    let mut cp = CheckpointTracker::new(3);
    assert!(!cp.record());
    assert!(!cp.record());
    assert!(cp.record());
    assert!(!cp.has_pending());
    assert!(!cp.record());
    assert!(cp.has_pending());
}

#[test]
fn load_commits_every_row_in_order() {
    let tables = vec![
        (b"a".to_vec(), vec![row(&["1"]), row(&["2"])]),
        (b"b".to_vec(), vec![row(&["3"])]),
    ];
    let mut store = StoreModel::new();
    assert_eq!(run_load(&mut store, &tables, 1000, None), Ok(()));
    assert_eq!(store.committed.len(), 3);
    assert_eq!(store.committed[0], (b"a".to_vec(), row(&["1"])));
    assert_eq!(store.committed[1], (b"a".to_vec(), row(&["2"])));
    assert_eq!(store.committed[2], (b"b".to_vec(), row(&["3"])));
}

#[test]
fn failed_write_rolls_back_the_whole_file() {
    let tables = vec![
        (b"a".to_vec(), vec![row(&["1"]), row(&["2"])]),
        (b"b".to_vec(), vec![row(&["3"]), row(&["4"])]),
    ];
    let mut store = StoreModel::new();
    assert_eq!(run_load(&mut store, &tables, 2, None), Ok(()));
    let before = store.committed.clone();

    // A failure at the second row of the second table undoes everything
    // from this file's transaction: nothing new is visible afterwards.
    assert_eq!(
        run_load(&mut store, &tables, 2, Some((1, 1))),
        Err(LoadErr::Write)
    );
    assert_eq!(store.committed, before);

    // A failure at the very first row leaves the store unchanged too.
    assert_eq!(
        run_load(&mut store, &tables, 2, Some((0, 0))),
        Err(LoadErr::Write)
    );
    assert_eq!(store.committed, before);
}

#[test]
fn failure_outside_the_writes_does_not_strike() {
    let tables = vec![(b"a".to_vec(), vec![row(&["1"])])];
    let mut store = StoreModel::new();
    assert_eq!(run_load(&mut store, &tables, 1000, Some((5, 0))), Ok(()));
    assert_eq!(store.committed.len(), 1);
}
