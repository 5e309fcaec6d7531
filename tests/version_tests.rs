use node_controller::version::{Version, VersionError};
use std::str::FromStr;

#[test]
fn test_version_parsing() {
    let v = Version::from_str("1.2.3").unwrap();
    assert_eq!(v.major, 1);
    assert_eq!(v.minor, 2);
    assert_eq!(v.patch, 3);
    assert_eq!(v.pre_release, None);
    assert_eq!(v.build, None);

    let v = Version::from_str("1.2.3-beta.1").unwrap();
    assert_eq!(v.major, 1);
    assert_eq!(v.minor, 2);
    assert_eq!(v.patch, 3);
    assert_eq!(v.pre_release, Some("beta.1".to_string()));
    assert_eq!(v.build, None);

    let v = Version::from_str("1.2.3+20230101").unwrap();
    assert_eq!(v.major, 1);
    assert_eq!(v.minor, 2);
    assert_eq!(v.patch, 3);
    assert_eq!(v.pre_release, None);
    assert_eq!(v.build, Some("20230101".to_string()));

    let v = Version::from_str("1.2.3-alpha.1+20230101").unwrap();
    assert_eq!(v.major, 1);
    assert_eq!(v.minor, 2);
    assert_eq!(v.patch, 3);
    assert_eq!(v.pre_release, Some("alpha.1".to_string()));
    assert_eq!(v.build, Some("20230101".to_string()));
}

#[test]
fn test_version_comparison() {
    assert!(Version::from_str("2.0.0").unwrap() > Version::from_str("1.0.0").unwrap());
    assert!(Version::from_str("1.2.0").unwrap() > Version::from_str("1.1.0").unwrap());
    assert!(Version::from_str("1.0.2").unwrap() > Version::from_str("1.0.1").unwrap());
    assert!(Version::from_str("1.0.0").unwrap() > Version::from_str("1.0.0-beta").unwrap());
    assert!(Version::from_str("1.0.0").unwrap() == Version::from_str("1.0.0").unwrap());
    assert!(Version::from_str("1.0.0+build.1").unwrap() == Version::from_str("1.0.0+build.2").unwrap());
}

#[test]
fn test_version_display() {
    let v = Version::new(1, 2, 3, None, None);
    assert_eq!(v.to_string(), "1.2.3");

    let v = Version::new(1, 2, 3, Some("beta.1".to_string()), None);
    assert_eq!(v.to_string(), "1.2.3-beta.1");

    let v = Version::new(1, 2, 3, None, Some("20230101".to_string()));
    assert_eq!(v.to_string(), "1.2.3+20230101");

    let v = Version::new(1, 2, 3, Some("alpha.1".to_string()), Some("20230101".to_string()));
    assert_eq!(v.to_string(), "1.2.3-alpha.1+20230101");
}

#[test]
fn version_parse_errors() {
    assert_eq!(Version::parse("1.2.3+a+b"), Err(VersionError::TooManyPlus));
    assert_eq!(Version::parse("1.2.3-a-b"), Err(VersionError::TooManyDash));
    assert_eq!(Version::parse("1.2"), Err(VersionError::WrongComponentCount));
    assert_eq!(Version::parse("x.2.3"), Err(VersionError::InvalidMajor));
    assert_eq!(Version::parse("1..3"), Err(VersionError::InvalidMinor));
    assert_eq!(Version::parse("1.2.4294967296"), Err(VersionError::InvalidPatch));
    assert_eq!(Version::parse(""), Err(VersionError::WrongComponentCount));
}

#[test]
fn version_numbers_read_like_std() {
    let v = Version::parse("1.02.4294967295").unwrap();
    assert_eq!((v.major, v.minor, v.patch), (1, 2, 4294967295));
    assert!(Version::parse("-1.2.3").is_err());
}

#[test]
fn version_pre_release_order_and_flags() {
    let a = Version::parse("1.0.0-alpha").unwrap();
    let b = Version::parse("1.0.0-beta").unwrap();
    assert!(a < b);
    assert!(Version::parse("1.0.0-beta").unwrap() < Version::parse("1.0.0-beta.1").unwrap());
    assert!(a.is_pre_release());
    assert!(!a.has_build_metadata());
    assert!(Version::parse("1.0.0+7").unwrap().has_build_metadata());
    assert_eq!(a.compare(&b), std::cmp::Ordering::Less);
}

#[test]
fn manifest_version_is_found() {
    let text = "[package]\nname = \"agent\"\nversion = \"1.2.3\"\nedition = \"2021\"\n";
    let v = Version::from_cargo_toml(text).unwrap();
    assert_eq!((v.major, v.minor, v.patch), (1, 2, 3));
}

#[test]
fn manifest_version_with_crlf_and_spaces() {
    let text = "[package]\r\n  version   =  \"0.4.0-beta\"  \r\nname = \"x\"\r\n";
    let v = Version::from_cargo_toml(text).unwrap();
    assert_eq!(v.to_string(), "0.4.0-beta");
}

#[test]
fn manifest_version_line_without_value_is_passed_over() {
    let text = "version\nversion = 2.0.1\n";
    assert_eq!(Version::from_cargo_toml(text).unwrap().to_string(), "2.0.1");
}

#[test]
fn manifest_version_errors() {
    assert_eq!(Version::from_cargo_toml("name = \"x\"\n"), Err(VersionError::NotFound));
    assert_eq!(Version::from_cargo_toml(""), Err(VersionError::NotFound));
    assert_eq!(
        Version::from_cargo_toml("version.workspace = true\nversion = \"1.0.0\"\n"),
        Err(VersionError::WrongComponentCount)
    );
}
