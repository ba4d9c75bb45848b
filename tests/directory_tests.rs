use sb::directory::get_latest_slice_directories;
use sb::SliceError;

#[test]
fn get_directories_with_max_semver_major() {
    let mut directories = Vec::new();
    directories.push("slices-1.0.1");
    directories.push("slices-0.2.1-beta.3");
    directories.push("slices-1.0.0-alpha");
    directories.push("slices-0.0.1-beta.3");
    let directories = directories.into_iter().map(|d| d.to_string()).collect::<Vec<_>>();
    let expected_result = vec!["slices-1.0.0-alpha", "slices-1.0.1"];
    let expected_result = expected_result.into_iter()
                                         .map(|d| d.to_string())
                                         .collect::<Vec<_>>();
    assert_eq!(sb::directory::get_directories_with_max_semver_major(directories).unwrap(), expected_result);
}

#[test]
fn empty_catalog_root_is_an_error() {
    assert_eq!(get_latest_slice_directories(Vec::new()), Err(SliceError::EmptyCatalog));
}

#[test]
fn bucket_with_invalid_version_is_an_error() {
    let dirs = vec!["slices-1.0.1".to_string(), "slices-1.x".to_string()];
    assert_eq!(get_latest_slice_directories(dirs), Err(SliceError::InvalidVersion));
}

#[test]
fn equal_versions_are_ordered_by_name() {
    let dirs = vec!["zeta-2.0.0".to_string(), "alpha-2.0.0".to_string(), "mid-2.1.0".to_string(), "old-1.9.0".to_string()];
    assert_eq!(get_latest_slice_directories(dirs).unwrap(),
               vec!["alpha-2.0.0".to_string(), "zeta-2.0.0".to_string(), "mid-2.1.0".to_string()]);
}

#[test]
fn bucket_without_version_counts_as_zero() {
    let dirs = vec!["slices".to_string(), "other".to_string()];
    assert_eq!(get_latest_slice_directories(dirs).unwrap(), vec!["other".to_string(), "slices".to_string()]);
}
