use sb::version::{extract_name_and_version, parse, zero, Identifier, Version};
use sb::SliceError;
use std::cmp::Ordering;

#[test]
fn version_slice_with_only_major() {
    let (name, version) = extract_name_and_version("apache-2").unwrap();
    assert_eq!(name, "apache");
    assert_eq!(version, parse("2").unwrap());
}

#[test]
fn version_slice_with_dash_in_name() {
    let (name, version) = extract_name_and_version("my-apache-2").unwrap();
    assert_eq!(name, "my-apache");
    assert_eq!(version, parse("2").unwrap());
}

#[test]
fn version_get_slice_name_and_version_from_string() {
    let string = "my_app-2.0.0-beta".to_string();
    let (slice_name, version) = extract_name_and_version(&string).unwrap();
    assert_eq!(slice_name, "my_app");
    assert_eq!(version, parse("2.0.0-beta").unwrap());
}

#[test]
fn directory_slice_with_only_major() {
    let (name, version) = extract_name_and_version("apache-2").unwrap();
    assert_eq!(name, "apache");
    assert_eq!(version, parse("2").unwrap());
}

#[test]
fn directory_slice_with_dash_in_name() {
    let (name, version) = extract_name_and_version("my-apache-2").unwrap();
    assert_eq!(name, "my-apache");
    assert_eq!(version, parse("2").unwrap());
}

#[test]
fn directory_get_slice_name_and_version_from_string() {
    let string = "my_app-2.0.0-beta".to_string();
    let (slice_name, version) = extract_name_and_version(&string).unwrap();
    assert_eq!(slice_name, "my_app");
    assert_eq!(version.major, 2);
    assert_eq!(version.minor, 0);
    assert_eq!(version.patch, 0);
}

#[test]
fn only_major() {
    let version = Version { major: 1, minor: 0, patch: 0, pre: Vec::new(), build: Vec::new() };
    assert_eq!(parse("1").unwrap(), version);
}

#[test]
fn major_and_minor() {
    let version = Version { major: 1, minor: 2, patch: 0, pre: Vec::new(), build: Vec::new() };
    assert_eq!(parse("1.2").unwrap(), version);
}

#[test]
fn major_and_minor_and_patch() {
    let version = Version { major: 1, minor: 2, patch: 3, pre: Vec::new(), build: Vec::new() };
    assert_eq!(parse("1.2.3").unwrap(), version);
}

#[test]
fn major_and_minor_and_patch_and_prerelease() {
    let version = Version {
        major: 1,
        minor: 2,
        patch: 3,
        pre: vec![Identifier::AlphaNumeric("alpha".to_string())],
        build: Vec::new(),
    };
    assert_eq!(parse("1.2.3-alpha").unwrap(), version);
}

#[test]
fn major_and_minor_and_patch_and_prerelease_and_build() {
    let version = Version {
        major: 1,
        minor: 2,
        patch: 3,
        pre: vec![Identifier::AlphaNumeric("alpha".to_string()), Identifier::Numeric(5)],
        build: Vec::new(),
    };
    assert_eq!(parse("1.2.3-alpha.5").unwrap(), version);
}

#[test]
fn strict_parse_reads_prerelease_identifiers() {
    let v = parse("1.2.3-alpha.5").unwrap();
    assert_eq!(v.pre.len(), 2);
    match &v.pre[0] {
        Identifier::AlphaNumeric(s) => assert_eq!(s, "alpha"),
        _ => panic!("expected an alphanumeric identifier"),
    }
    match &v.pre[1] {
        Identifier::Numeric(n) => assert_eq!(*n, 5),
        _ => panic!("expected a numeric identifier"),
    }
}

#[test]
fn strict_parse_keeps_build_metadata() {
    let v = parse("1.2.3+build.7").unwrap();
    assert_eq!(v.build.len(), 2);
    assert!(v.pre.is_empty());
}

#[test]
fn name_and_version_examples() {
    let (name, version) = extract_name_and_version("my-app-2.0.0-beta").unwrap();
    assert_eq!(name, "my-app");
    assert_eq!(version, parse("2.0.0-beta").unwrap());
    assert_eq!(version.major, 2);
    assert_eq!(version.pre.len(), 1);
    let (name, version) = extract_name_and_version("apache-2").unwrap();
    assert_eq!(name, "apache");
    assert_eq!((version.major, version.minor, version.patch), (2, 0, 0));
    let (name, version) = extract_name_and_version("wget").unwrap();
    assert_eq!(name, "wget");
    assert_eq!(version, zero());
}

#[test]
fn dash_not_followed_by_digit_stays_in_name() {
    let (name, version) = extract_name_and_version("ubuntu-only-1.0.1").unwrap();
    assert_eq!(name, "ubuntu-only");
    assert_eq!((version.major, version.minor, version.patch), (1, 0, 1));
    let (name, version) = extract_name_and_version("a-b-c").unwrap();
    assert_eq!(name, "a-b-c");
    assert_eq!(version, zero());
}

#[test]
fn permissive_three_parts() {
    let v = parse("01.2.3").unwrap();
    assert_eq!((v.major, v.minor, v.patch), (1, 2, 3));
}

#[test]
fn invalid_version_is_an_error() {
    assert_eq!(parse("1.x.y"), Err(SliceError::InvalidVersion));
    assert_eq!(parse("1.2.3.4"), Err(SliceError::InvalidVersion));
    assert_eq!(parse("abc"), Err(SliceError::InvalidVersion));
    assert!(extract_name_and_version("ruby-2.x").is_err());
}

#[test]
fn release_outranks_prerelease() {
    let release = parse("1.0.0").unwrap();
    let pre = parse("1.0.0-alpha").unwrap();
    assert_eq!(pre.compare(&release), Ordering::Less);
    assert_eq!(release.compare(&pre), Ordering::Greater);
    assert!(pre.is_less_than(&release));
    assert!(!release.is_less_than(&pre));
}

#[test]
fn precedence_order_examples() {
    let order = ["1.0.0-alpha", "1.0.0-alpha.1", "1.0.0-alpha.beta", "1.0.0-beta.2", "1.0.0-beta.11", "1.0.0", "1.0.1", "1.2.0", "2.0.0"];
    for i in 0..order.len() {
        for j in 0..order.len() {
            let a = parse(order[i]).unwrap();
            let b = parse(order[j]).unwrap();
            assert_eq!(a.compare(&b), i.cmp(&j), "{} vs {}", order[i], order[j]);
        }
    }
}

#[test]
fn build_metadata_does_not_count() {
    let a = parse("1.0.0+a").unwrap();
    let b = parse("1.0.0+b").unwrap();
    assert_eq!(a.compare(&b), Ordering::Equal);
    assert_eq!(a, b);
}

#[test]
fn zero_is_all_zero() {
    let z = zero();
    assert_eq!((z.major, z.minor, z.patch), (0, 0, 0));
    assert!(z.pre.is_empty() && z.build.is_empty());
}
