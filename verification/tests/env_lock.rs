use env_lock::lock_env;
use env_lock::EnvTable;

fn entry(name: &str, value: Option<&str>) -> (String, Option<String>) {
    (name.to_string(), value.map(|v| v.to_string()))
}

fn value_of(table: &EnvTable, name: &str) -> Option<String> {
    table.get(name).cloned()
}

/// Set a value for a variable that is not set yet.
#[test]
fn set_missing_var() {
    let var = "ENV_LOCK_TEST_VARIABLE_SET_MISSING";
    let mut table = EnvTable::new();
    assert!(value_of(&table, var).is_none());

    let guard = lock_env(&mut table, &vec![entry(var, Some("hello!"))]);
    assert_eq!(value_of(&table, var).unwrap(), "hello!");
    guard.release(&mut table);

    assert!(value_of(&table, var).is_none());
}

/// Override the value of a preexisting variable.
#[test]
fn set_existing_var() {
    let var = "ENV_LOCK_TEST_VARIABLE_SET_EXISTING";
    let mut table = EnvTable::new();
    table.set_var(var.to_string(), "existing".to_string());
    assert_eq!(value_of(&table, var).unwrap(), "existing");

    let guard = lock_env(&mut table, &vec![entry(var, Some("hello!"))]);
    assert_eq!(value_of(&table, var).unwrap(), "hello!");
    guard.release(&mut table);

    assert_eq!(value_of(&table, var).unwrap(), "existing");
}

/// Remove the value of a preexisting variable.
#[test]
fn clear_existing_var() {
    let var = "ENV_LOCK_TEST_VARIABLE_CLEAR_EXISTING";
    let mut table = EnvTable::new();
    table.set_var(var.to_string(), "existing".to_string());
    assert_eq!(value_of(&table, var).unwrap(), "existing");

    let guard = lock_env(&mut table, &vec![entry(var, None)]);
    assert!(value_of(&table, var).is_none());
    guard.release(&mut table);

    assert_eq!(value_of(&table, var).unwrap(), "existing");
}

/// After one guard is released, a second acquisition sees the restored value
/// and works exactly like the first.
#[test]
fn reacquire_after_release() {
    let var = "ENV_LOCK_TEST_VARIABLE_RESET_ON_PANIC";
    let mut table = EnvTable::new();
    table.set_var(var.to_string(), "default".to_string());

    let guard = lock_env(&mut table, &vec![entry(var, Some("panicked!"))]);
    assert_eq!(value_of(&table, var).unwrap(), "panicked!");
    guard.release(&mut table);

    // Previous state was restored
    assert_eq!(value_of(&table, var).unwrap(), "default");

    // A new acquisition works on the restored state
    let guard = lock_env(&mut table, &vec![entry(var, Some("very calm"))]);
    assert_eq!(value_of(&table, var).unwrap(), "very calm");
    guard.release(&mut table);
    assert_eq!(value_of(&table, var).unwrap(), "default");
}

/// A name that occurs twice is applied once per occurrence, in input order:
/// the last occurrence controls the value held while the guard is alive.
/// The snapshot keeps one entry for the name, recording its pre-acquisition
/// value, so release restores the original state.
#[test]
fn duplicate_names_last_value_wins() {
    let var = "DUPLICATE";
    let mut table = EnvTable::new();

    let guard = lock_env(
        &mut table,
        &vec![entry(var, Some("first")), entry(var, Some("second"))],
    );
    assert_eq!(value_of(&table, var).unwrap(), "second");
    assert_eq!(guard.previous_values(), &vec![entry(var, None)]);

    guard.release(&mut table);
    assert!(value_of(&table, var).is_none());
}

/// A duplicated name whose variable existed beforehand is restored to its
/// original value, not to a value set by an earlier occurrence.
#[test]
fn duplicate_names_restore_original() {
    let var = "DUPLICATE_EXISTING";
    let mut table = EnvTable::new();
    table.set_var(var.to_string(), "original".to_string());

    let guard = lock_env(&mut table, &vec![entry(var, Some("first")), entry(var, None)]);
    assert!(value_of(&table, var).is_none());
    assert_eq!(guard.previous_values(), &vec![entry(var, Some("original"))]);

    guard.release(&mut table);
    assert_eq!(value_of(&table, var).unwrap(), "original");
}

/// Several distinct variables are all set while the guard is alive and all
/// restored on release.
#[test]
fn several_variables_restored() {
    let mut table = EnvTable::new();
    table.set_var("A".to_string(), "1".to_string());
    table.set_var("B".to_string(), "2".to_string());

    let guard = lock_env(
        &mut table,
        &vec![
            entry("A", Some("10")),
            entry("B", None),
            entry("C", Some("30")),
        ],
    );
    assert_eq!(value_of(&table, "A").unwrap(), "10");
    assert!(value_of(&table, "B").is_none());
    assert_eq!(value_of(&table, "C").unwrap(), "30");

    guard.release(&mut table);
    assert_eq!(value_of(&table, "A").unwrap(), "1");
    assert_eq!(value_of(&table, "B").unwrap(), "2");
    assert!(value_of(&table, "C").is_none());
}

/// The snapshot records each variable's prior value, or its prior absence.
#[test]
fn snapshot_records_prior_values() {
    let mut table = EnvTable::new();
    table.set_var("SET".to_string(), "old".to_string());

    let guard = lock_env(
        &mut table,
        &vec![entry("SET", Some("new")), entry("UNSET", Some("new"))],
    );
    assert_eq!(
        guard.previous_values(),
        &vec![entry("SET", Some("old")), entry("UNSET", None)],
    );
    guard.release(&mut table);
}

/// Acquiring with no requested variables changes nothing and restores
/// nothing.
#[test]
fn empty_request() {
    let mut table = EnvTable::new();
    table.set_var("A".to_string(), "1".to_string());

    let guard = lock_env(&mut table, &vec![]);
    assert!(guard.previous_values().is_empty());
    assert_eq!(value_of(&table, "A").unwrap(), "1");
    guard.release(&mut table);
    assert_eq!(value_of(&table, "A").unwrap(), "1");
}

/// Unsetting a variable that is already unset leaves it unset, both while
/// the guard is alive and after release.
#[test]
fn unset_missing_var() {
    let var = "NEVER_SET";
    let mut table = EnvTable::new();

    let guard = lock_env(&mut table, &vec![entry(var, None)]);
    assert!(value_of(&table, var).is_none());
    guard.release(&mut table);
    assert!(value_of(&table, var).is_none());
}

/// Basic table operations: set, overwrite, contains, remove.
#[test]
fn table_operations() {
    let mut table = EnvTable::new();
    assert!(!table.contains("K"));

    table.set_var("K".to_string(), "v1".to_string());
    assert!(table.contains("K"));
    assert_eq!(value_of(&table, "K").unwrap(), "v1");

    table.set_var("K".to_string(), "v2".to_string());
    assert_eq!(value_of(&table, "K").unwrap(), "v2");

    table.remove_var("K");
    assert!(!table.contains("K"));
    assert!(value_of(&table, "K").is_none());

    // Removing an absent name is harmless
    table.remove_var("K");
    assert!(!table.contains("K"));
}
