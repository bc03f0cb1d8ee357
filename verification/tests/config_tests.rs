use auto_rename_screenshots::mods::config::{self, RemoveOutcome};
use auto_rename_screenshots::mods::types::{Config, PCHStdError};

fn names(list: &[&str]) -> Vec<String> {
    list.iter().map(|s| s.to_string()).collect()
}

fn config_of(list: &[&str]) -> Config {
    Config {
        file_names: names(list),
    }
}

#[test]
fn new_config_holds_one_empty_name() {
    let c = Config::new();
    assert_eq!(c.file_names, vec![String::new()]);
}

#[test]
fn add_appends_in_order() {
    let mut c = config_of(&["a"]);
    let r = config::add(&mut c, &Some(names(&["b", "c", "a"])));
    assert_eq!(r, Ok(()));
    assert_eq!(c.file_names, names(&["a", "b", "c", "a"]));
}

#[test]
fn add_without_data_is_empty_input() {
    let mut c = config_of(&["a"]);
    let r = config::add(&mut c, &None);
    assert_eq!(r, Err(PCHStdError::EmptyInput));
    assert_eq!(c.file_names, names(&["a"]));
}

#[test]
fn add_empty_list_changes_nothing() {
    let mut c = config_of(&["a"]);
    assert_eq!(config::add(&mut c, &Some(vec![])), Ok(()));
    assert_eq!(c.file_names, names(&["a"]));
}

#[test]
fn remove_takes_first_occurrence() {
    let mut c = config_of(&["a", "b", "a", "c"]);
    let r = config::remove(&mut c, &Some(names(&["a"]))).unwrap();
    assert_eq!(r, vec![RemoveOutcome::Removed]);
    assert_eq!(c.file_names, names(&["b", "a", "c"]));
}

#[test]
fn remove_reports_missing_names() {
    let mut c = config_of(&["a", "b"]);
    let r = config::remove(&mut c, &Some(names(&["x", "b", "b"]))).unwrap();
    assert_eq!(
        r,
        vec![
            RemoveOutcome::NotFound,
            RemoveOutcome::Removed,
            RemoveOutcome::NotFound
        ]
    );
    assert_eq!(c.file_names, names(&["a"]));
}

#[test]
fn remove_without_data_is_empty_input() {
    let mut c = config_of(&["a"]);
    assert_eq!(
        config::remove(&mut c, &None),
        Err(PCHStdError::EmptyInput)
    );
    assert_eq!(c.file_names, names(&["a"]));
}

#[test]
fn add_then_remove_new_names_restores() {
    let mut c = config_of(&["a", "b"]);
    let data = Some(names(&["x", "y", "x"]));
    config::add(&mut c, &data).unwrap();
    config::remove(&mut c, &data).unwrap();
    assert_eq!(c.file_names, names(&["a", "b"]));
}

#[test]
fn add_then_remove_known_names_keeps_the_same_names() {
    let mut c = config_of(&["a", "b", "c"]);
    let data = Some(names(&["b"]));
    config::add(&mut c, &data).unwrap();
    config::remove(&mut c, &data).unwrap();
    // the first "b" went, the appended one stays: same names, other order
    assert_eq!(c.file_names, names(&["a", "c", "b"]));
}

#[test]
fn remove_absent_names_keeps_config() {
    let mut c = config_of(&["a", "b"]);
    let r = config::remove(&mut c, &Some(names(&["x", "y"]))).unwrap();
    assert_eq!(r, vec![RemoveOutcome::NotFound, RemoveOutcome::NotFound]);
    assert_eq!(c.file_names, names(&["a", "b"]));
}
