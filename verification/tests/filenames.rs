use aurora::filenames::{is_reserved_device_name, sanitize_download_filename, trim_filename, MAX_FILENAME_LEN};

#[test]
fn ordinary_names_pass_trimmed() {
    assert_eq!(sanitize_download_filename("mod.zip"), Some("mod.zip".to_string()));
    assert_eq!(sanitize_download_filename("  mod.zip.. "), Some("mod.zip".to_string()));
}

#[test]
fn unsafe_names_are_refused() {
    assert_eq!(sanitize_download_filename(""), None);
    assert_eq!(sanitize_download_filename(" .. "), None);
    assert_eq!(sanitize_download_filename("a/b.zip"), None);
    assert_eq!(sanitize_download_filename("a\\b.zip"), None);
    assert_eq!(sanitize_download_filename("what?.zip"), None);
    assert_eq!(sanitize_download_filename("tab\there.zip"), None);
    assert_eq!(sanitize_download_filename("CON"), None);
    assert_eq!(sanitize_download_filename("nul.txt"), None);
    let huge = "a".repeat(1025);
    assert_eq!(sanitize_download_filename(&huge), None);
}

#[test]
fn long_names_are_cut_keeping_the_extension() {
    let name = format!("{}.zip", "a".repeat(200));
    let safe = sanitize_download_filename(&name).unwrap();
    assert!(safe.len() <= MAX_FILENAME_LEN);
    assert!(safe.ends_with(".zip"));
    assert_eq!(safe, format!("{}.zip", "a".repeat(MAX_FILENAME_LEN - 4)));
}

#[test]
fn reserved_device_names() {
    assert!(is_reserved_device_name("COM1"));
    assert!(is_reserved_device_name("lpt9.log"));
    assert!(!is_reserved_device_name("console"));
    assert_eq!(trim_filename(" .x. "), "x");
}

#[test]
fn cut_names_fit_in_bytes_and_stay_clean() {
    let name = format!("{}. .tar", "é".repeat(100));
    let safe = sanitize_download_filename(&name).unwrap();
    assert!(safe.len() <= MAX_FILENAME_LEN);
    assert_eq!(safe, format!("{}.tar", "é".repeat(62)));
    assert_eq!(trim_filename(&safe), safe);
}
