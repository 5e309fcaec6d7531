use node_controller::updater::{
    extract_filename_from_url, extract_sha256_from_body, extract_version_from_tag, sha256_in_line,
    split_words, UpdateChannel, UpdateConfig, UpdateError,
};

#[test]
fn test_extract_filename_from_url() {
    assert_eq!(
        extract_filename_from_url("https://github.com/a14a-org/node-controller-rust/releases/download/v1.0.0/node-controller-macos.zip").unwrap(),
        "node-controller-macos.zip"
    );

    assert_eq!(
        extract_filename_from_url("https://example.com/path/to/file.tar.gz").unwrap(),
        "file.tar.gz"
    );
}

#[test]
fn test_extract_version_from_tag() {
    assert_eq!(extract_version_from_tag("stable-1.2.3", "stable").unwrap(), "1.2.3");
    assert_eq!(extract_version_from_tag("v1.2.3", "v").unwrap(), "1.2.3");
    assert_eq!(extract_version_from_tag("v1.2.3", "").unwrap(), "1.2.3");
    assert_eq!(extract_version_from_tag("beta-1.2.3-rc.1", "beta").unwrap(), "1.2.3-rc.1");
}

#[test]
fn version_tag_errors() {
    assert_eq!(extract_version_from_tag("stable", "stable"), Err(UpdateError::NoVersionInTag));
    assert_eq!(extract_version_from_tag("stable-.", "stable"), Err(UpdateError::NoVersionInTag));
    assert_eq!(extract_version_from_tag("release-1", "stable"), Err(UpdateError::UnrecognizedTag));
    assert_eq!(extract_version_from_tag("v", "x"), Err(UpdateError::UnrecognizedTag));
    assert_eq!(extract_version_from_tag("nightly--..2", "nightly").unwrap(), "2");
}

#[test]
fn filename_of_url_without_slash() {
    assert_eq!(extract_filename_from_url("plain.zip").unwrap(), "plain.zip");
    assert_eq!(extract_filename_from_url("https://host/dir/").unwrap(), "");
}

#[test]
fn channel_tag_prefixes() {
    assert_eq!(UpdateChannel::Stable.as_tag_prefix(), "stable");
    assert_eq!(UpdateChannel::Beta.as_tag_prefix(), "beta");
    assert_eq!(UpdateChannel::Nightly.as_tag_prefix(), "nightly");
    assert_eq!(UpdateChannel::Custom("edge".to_string()).as_tag_prefix(), "edge");
}

#[test]
fn update_config_defaults() {
    let c = UpdateConfig::with_update_dir("/tmp/u".to_string());
    assert_eq!(c.check_interval_mins, 60);
    assert_eq!(c.channel, UpdateChannel::Stable);
    assert!(!c.auto_update);
    assert_eq!(c.repository, "a14a-org/node-controller-rust");
    assert_eq!(c.update_dir, "/tmp/u");
    assert_eq!(c.max_backups, 3);
    assert!(c.post_update_commands.is_empty());
    assert_eq!(c.health_check_timeout_secs, 30);
}

const HEX: &str = "ba7816bf8f01cfea414140de5dae2223b00361a396177a9cb410ff61f20015ad";

#[test]
fn checksum_after_label() {
    let body = format!("Release notes\n\nSHA256: {}\nMore text", HEX);
    assert_eq!(extract_sha256_from_body(&body), Some(HEX.to_string()));
    let body = format!("Release notes\r\n\r\nChecksum: {}\r\nMore text", HEX);
    assert_eq!(extract_sha256_from_body(&body), Some(HEX.to_string()));
}

#[test]
fn checksum_label_in_any_case() {
    let body = format!("notes\nShA256 = {}", HEX.to_uppercase());
    assert_eq!(extract_sha256_from_body(&body), Some(HEX.to_uppercase()));
}

#[test]
fn no_checksum_found() {
    assert_eq!(extract_sha256_from_body("Release notes\n\nNo checksum here\nMore text"), None);
    let short = &HEX[..63];
    assert_eq!(extract_sha256_from_body(&format!("sha256: {}", short)), None);
    assert_eq!(extract_sha256_from_body(&format!("digest: {}", HEX)), None);
    let not_hex = "1a2b3c4d5e6f7g8h9i0j1k2l3m4n5o6p7q8r9s0t1u2v3w4x5y6z7a8b9c0d";
    assert_eq!(extract_sha256_from_body(&format!("SHA256: {}", not_hex)), None);
}

#[test]
fn checksum_from_later_line() {
    let body = format!("checksum below\nsha256 {}  ", HEX);
    assert_eq!(extract_sha256_from_body(&body), Some(HEX.to_string()));
    assert_eq!(sha256_in_line(&format!("x {}", HEX), "no label"), None);
    assert_eq!(sha256_in_line(&format!("x {}", HEX), "sha256"), Some(HEX.to_string()));
}

#[test]
fn words_of_a_line() {
    assert_eq!(split_words("  a bb\tccc  "), vec!["a", "bb", "ccc"]);
    assert!(split_words("   ").is_empty());
}
