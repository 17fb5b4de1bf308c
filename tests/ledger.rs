use yoink::{
    is_blank, list_installs, record_install, removal_continues, remove_install,
    uninstall, InstallState, RemovalOutcome, YoinkError,
};

fn strings(items: &[&str]) -> Vec<String> {
    items.iter().map(|s| s.to_string()).collect()
}

#[test]
fn remove_install_errors_when_missing() {
    let mut state = InstallState::new();
    assert!(remove_install(&mut state, "mxcl/yoink").is_err());
}

#[test]
fn read_state_defaults_on_empty_file() {
    let contents = "";
    assert!(is_blank(contents));
    let state = InstallState::new();
    assert!(state.installs.is_empty());
}

#[test]
fn uninstall_removes_install() {
    let mut state = InstallState::new();
    record_install(&mut state, "mxcl/yoink", "v1.0.0", &strings(&["/tmp/home/yoink"]))
        .expect("record install");
    uninstall(&mut state, "mxcl/yoink").expect("uninstall");
    assert!(state.installs.is_empty());
}

#[test]
fn record_and_remove_install_updates_state() {
    let mut state = InstallState::new();
    let bins = strings(&["/tmp/home/bin/yoink", "/tmp/home/bin/helper"]);
    record_install(&mut state, "mxcl/yoink", "v1.2.3", &bins).expect("record install");

    let installs = list_installs(&state);
    assert_eq!(installs.len(), 1);
    assert_eq!(installs[0].repo, "mxcl/yoink");
    assert_eq!(installs[0].version, "1.2.3");

    let entry = remove_install(&mut state, "mxcl/yoink").expect("remove install");
    assert_eq!(entry.version, "v1.2.3");
    assert_eq!(entry.all_bins(), bins);
    assert!(state.installs.is_empty());
}

#[test]
fn record_requires_binaries() {
    let mut state = InstallState::new();
    assert_eq!(
        record_install(&mut state, "mxcl/yoink", "v1", &[]),
        Err(YoinkError::EmptyInstallSet)
    );
    assert!(state.installs.is_empty());
}

#[test]
fn rerecording_overwrites_in_place() {
    let mut state = InstallState::new();
    record_install(&mut state, "a/one", "v1", &strings(&["/x/one"])).expect("record");
    record_install(&mut state, "b/two", "v2", &strings(&["/x/two"])).expect("record");
    record_install(&mut state, "a/one", "v3", &strings(&["/y/one", "/y/extra"])).expect("record");
    assert_eq!(state.installs.len(), 2);
    assert_eq!(state.installs[0].0, "a/one");
    assert_eq!(state.installs[0].1.version, "v3");
    assert_eq!(state.installs[0].1.bin, "/y/one");
    assert_eq!(state.installs[0].1.bins, strings(&["/y/extra"]));
    assert_eq!(state.installs[1].0, "b/two");
}

#[test]
fn removing_twice_fails_the_second_time() {
    let mut state = InstallState::new();
    record_install(&mut state, "mxcl/yoink", "v1", &strings(&["/x/yoink"])).expect("record");
    assert!(remove_install(&mut state, "mxcl/yoink").is_ok());
    assert!(matches!(
        remove_install(&mut state, "mxcl/yoink"),
        Err(YoinkError::LedgerEntryMissing)
    ));
    assert!(removal_continues(RemovalOutcome::AlreadyGone));
    assert!(removal_continues(RemovalOutcome::Deleted));
    assert!(!removal_continues(RemovalOutcome::Failed));
}

#[test]
fn uninstall_checks_the_key() {
    let mut state = InstallState::new();
    assert!(matches!(
        uninstall(&mut state, "not-a-repo"),
        Err(YoinkError::InvalidProjectKey)
    ));
    assert!(matches!(
        uninstall(&mut state, "mxcl/yoink"),
        Err(YoinkError::LedgerEntryMissing)
    ));
}

#[test]
fn blank_ledger_texts() {
    assert!(is_blank(""));
    assert!(is_blank(" \n\t\r\n"));
    assert!(is_blank("\u{3000}\u{a0}"));
    assert!(!is_blank(" {}\n"));
}

#[test]
fn listing_shows_versions_in_key_order() {
    let mut state = InstallState::new();
    record_install(&mut state, "b/two", "vbeta", &strings(&["/x/two"])).expect("record");
    record_install(&mut state, "a/one", "2.0", &strings(&["/x/one"])).expect("record");
    record_install(&mut state, "c/three", "v3", &strings(&["/x/three"])).expect("record");
    let installs = list_installs(&state);
    assert_eq!(installs.len(), 3);
    assert_eq!(installs[0].repo, "a/one");
    assert_eq!(installs[0].version, "2.0");
    assert_eq!(installs[1].repo, "b/two");
    assert_eq!(installs[1].version, "vbeta");
    assert_eq!(installs[2].repo, "c/three");
    assert_eq!(installs[2].version, "3");
}

#[test]
fn rebuilding_from_entries_gives_same_ledger() {
    let mut state = InstallState::new();
    record_install(&mut state, "b/two", "v2", &strings(&["/x/two", "/x/two-helper"])).expect("record");
    record_install(&mut state, "a/one", "v1", &strings(&["/x/one"])).expect("record");

    let mut loaded = InstallState::new();
    for (repo, entry) in &state.installs {
        loaded.put(
            repo.clone(),
            yoink::InstallEntry {
                version: entry.version.clone(),
                bin: entry.bin.clone(),
                bins: entry.bins.clone(),
            },
        );
    }
    assert_eq!(loaded.installs.len(), 2);
    for k in 0..2 {
        assert_eq!(loaded.installs[k].0, state.installs[k].0);
        assert_eq!(loaded.installs[k].1.version, state.installs[k].1.version);
        assert_eq!(loaded.installs[k].1.bin, state.installs[k].1.bin);
        assert_eq!(loaded.installs[k].1.bins, state.installs[k].1.bins);
    }
}
