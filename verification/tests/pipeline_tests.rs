use dumpflow::load::{run_load, StoreModel};
use dumpflow::pipeline::{
    is_dump_file_name, plan_file, split_config_tables, standard_config, FileOutcome,
};
use flate2::write::GzEncoder;
use flate2::Compression;
use std::io::Write;

fn gz_dump(text: &[u8]) -> Vec<u8> {
    let mut e = GzEncoder::new(Vec::new(), Compression::default());
    e.write_all(text).unwrap();
    e.finish().unwrap()
}

fn row(fields: &[&str]) -> Vec<Vec<u8>> {
    fields.iter().map(|f| f.as_bytes().to_vec()).collect()
}

fn accepted_dump_text() -> Vec<u8> {
    b"CREATE TABLE `global_properties` (\n\
      ('property_name_1','expected_value_1')\n\
      ('property_name_2','expected_value_2')\n\
      )\n\
      CREATE TABLE `items` (\n\
      ('one','1')\n\
      ('two','2')\n\
      )\n"
        .to_vec()
}

#[test]
fn accepted_dump_loads_rows_verbatim_and_commits() {
    let config = standard_config(Vec::new(), b"site42".to_vec(), 1000);
    let dump = gz_dump(&accepted_dump_text());
    match plan_file(&dump, &config) {
        FileOutcome::Load(tables) => {
            let items: Vec<_> =
                tables.iter().filter(|(n, _)| n.as_slice() == b"items").collect();
            assert_eq!(items.len(), 1);
            assert_eq!(items[0].1, vec![row(&["one", "1"]), row(&["two", "2"])]);

            let mut store = StoreModel::new();
            assert_eq!(run_load(&mut store, &tables, config.checkpoint_batch, None), Ok(()));
            assert!(store
                .committed
                .contains(&(b"items".to_vec(), row(&["one", "1"]))));
            assert!(store
                .committed
                .contains(&(b"items".to_vec(), row(&["two", "2"]))));
        },
        _ => panic!("expected the dump to be accepted for loading"),
    }
}

#[test]
fn wrong_property_value_quarantines_with_reason() {
    let config = standard_config(Vec::new(), b"site42".to_vec(), 1000);
    let text = b"CREATE TABLE `global_properties` (\n\
      ('property_name_1','expected_value_1')\n\
      ('property_name_2','wrong')\n\
      )\n\
      CREATE TABLE `items` (\n\
      ('one','1')\n\
      )\n";
    match plan_file(&gz_dump(text), &config) {
        FileOutcome::Quarantine(reason) => {
            assert_eq!(
                reason,
                b"property_name_1: expected_value_1\nproperty_name_2: wrong\n".to_vec()
            );
        },
        _ => panic!("expected the dump to be quarantined"),
    }
}

#[test]
fn tenant_scoped_table_gains_site_id() {
    let config = standard_config(vec![b"notes".to_vec()], b"site42".to_vec(), 1000);
    let text = b"CREATE TABLE `global_properties` (\n\
      ('property_name_1','expected_value_1')\n\
      ('property_name_2','expected_value_2')\n\
      )\n\
      CREATE TABLE `notes` (\n\
      ('a','b')\n\
      )\n";
    match plan_file(&gz_dump(text), &config) {
        FileOutcome::Load(tables) => {
            let notes: Vec<_> =
                tables.iter().filter(|(n, _)| n.as_slice() == b"notes").collect();
            assert_eq!(notes[0].1, vec![row(&["site42", "a", "b"])]);

            let mut store = StoreModel::new();
            assert_eq!(run_load(&mut store, &tables, config.checkpoint_batch, None), Ok(()));
            assert!(store
                .committed
                .contains(&(b"notes".to_vec(), row(&["site42", "a", "b"]))));
        },
        _ => panic!("expected the dump to be accepted for loading"),
    }
}

#[test]
fn dump_without_global_properties_is_abandoned() {
    let config = standard_config(Vec::new(), b"site42".to_vec(), 1000);
    let text = b"CREATE TABLE `items` (\n('one','1')\n)\n";
    assert!(matches!(
        plan_file(&gz_dump(text), &config),
        FileOutcome::MissingProperties
    ));
}

#[test]
fn unparsable_dump_is_abandoned() {
    let config = standard_config(Vec::new(), b"site42".to_vec(), 1000);
    assert!(matches!(
        plan_file(b"not gzip", &config),
        FileOutcome::ParseFailed(_)
    ));
}

#[test]
fn watch_filter_matches_dump_names_only() {
    assert!(is_dump_file_name(b"openmrs_site1.sql.gz"));
    assert!(is_dump_file_name(b"openmrs_.sql.gz"));
    assert!(!is_dump_file_name(b"other_site1.sql.gz"));
    assert!(!is_dump_file_name(b"openmrs_site1.sql"));
    assert!(!is_dump_file_name(b"openmrs"));
}

#[test]
fn config_table_list_splits_on_commas() {
    let parts = split_config_tables(b"alpha,beta,gamma");
    assert_eq!(
        parts,
        vec![b"alpha".to_vec(), b"beta".to_vec(), b"gamma".to_vec()]
    );
    assert_eq!(split_config_tables(b""), vec![b"".to_vec()]);
    assert_eq!(
        split_config_tables(b"solo"),
        vec![b"solo".to_vec()]
    );
}
