use sb::fetch::{choose_latest_branch, FetchCommand};
use sb::SliceError;

#[test]
fn choose_latest_version() {
    let versions = vec!["du-0.0.1-rc.1",
                        "du-0.0.2",
                        "my-du-1.0.0",
                        "ubuntu-only-1.0.1",
                        "fed-2.1.1"];
    assert_eq!(sb::fetch::choose_latest_version(&versions).unwrap(), "fed-2.1.1");
}

#[test]
fn latest_version_ties_go_to_the_last() {
    let versions = vec!["a-1.0.0", "b-1.0.0+x", "c-0.9.0"];
    assert_eq!(sb::fetch::choose_latest_version(&versions).unwrap(), "b-1.0.0+x");
}

#[test]
fn latest_version_with_invalid_token() {
    let versions = vec!["a-1.0.0", "b-1.x"];
    assert_eq!(sb::fetch::choose_latest_version(&versions), Err(SliceError::InvalidVersion));
}

#[test]
fn master_branch_is_never_chosen() {
    let branches = vec!["master", "du-0.0.2", "du-0.1.0"];
    assert_eq!(choose_latest_branch(&branches).unwrap(), Some("du-0.1.0"));
    assert_eq!(choose_latest_branch(&vec!["master"]).unwrap(), None);
}

#[test]
fn fetch_command_keeps_its_root() {
    let command = FetchCommand::new("/tmp".to_string());
    assert_eq!(command.slice_root_directory, "/tmp");
}
