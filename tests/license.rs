use tidy::{check, check_license, extract_license, is_approved_license, is_exception, LicenseCheck, VendoredCrate};

fn manifest(license_line: &str) -> String {
    format!("[package]\nname = \"foo\"\nversion = \"0.1.0\"\n{}\nauthors = []\n", license_line)
}

#[test]
fn mit_passes() {
    assert!(matches!(check_license(&manifest("license = \"MIT\"")), LicenseCheck::Approved));
}

#[test]
fn dual_license_passes() {
    assert!(matches!(check_license(&manifest("license = \"MIT OR Apache-2.0\"")), LicenseCheck::Approved));
    assert!(matches!(check_license(&manifest("license = \"MIT/Apache-2.0\"\r")), LicenseCheck::Approved));
}

#[test]
fn gpl_fails_with_exact_string() {
    match check_license(&manifest("license = \"GPL-2.0\"")) {
        LicenseCheck::Unapproved(s) => assert_eq!(s, "GPL-2.0"),
        _ => panic!("expected an unapproved license"),
    }
}

#[test]
fn no_license_line_fails() {
    assert!(matches!(check_license("[package]\nname = \"foo\"\n"), LicenseCheck::Missing));
    assert!(matches!(check_license(""), LicenseCheck::Missing));
    assert!(matches!(check_license("name = \"x\"\n  license = \"MIT\"\n"), LicenseCheck::Missing));
}

#[test]
fn only_first_license_line_counts() {
    let text = "license = \"GPL-3.0\"\nlicense = \"MIT\"\n";
    match check_license(text) {
        LicenseCheck::Unapproved(s) => assert_eq!(s, "GPL-3.0"),
        _ => panic!("expected the first license line to decide"),
    }
    assert!(matches!(check_license("license-file = \"LICENSE\"\nlicense = \"MIT\""), LicenseCheck::Unapproved(_)));
}

#[test]
fn bad_quotes_give_sentinel() {
    match check_license(&manifest("license = MIT")) {
        LicenseCheck::Unapproved(s) => assert_eq!(s, "bad-license-parse"),
        _ => panic!("expected the parse sentinel"),
    }
    match check_license(&manifest("license = \"MIT")) {
        LicenseCheck::Unapproved(s) => assert_eq!(s, "bad-license-parse"),
        _ => panic!("expected the parse sentinel"),
    }
}

#[test]
fn extract_between_outer_quotes() {
    assert_eq!(extract_license("license = \"MIT\""), "MIT");
    assert_eq!(extract_license("license = \"a \"b\" c\""), "a \"b\" c");
    assert_eq!(extract_license("license = \"\""), "");
    assert_eq!(extract_license("license = \""), "bad-license-parse");
    assert_eq!(extract_license("license"), "bad-license-parse");
}

#[test]
fn approved_list() {
    for s in ["MIT/Apache-2.0", "MIT / Apache-2.0", "Apache-2.0/MIT", "Apache-2.0 / MIT", "MIT OR Apache-2.0", "MIT", "Unlicense/MIT"] {
        assert!(is_approved_license(s));
    }
    assert!(!is_approved_license("mit"));
    assert!(!is_approved_license("MIT "));
    assert!(!is_approved_license(""));
}

#[test]
fn exceptions_match_by_path() {
    assert!(is_exception("/home/u/rust/src/vendor/openssl"));
    assert!(is_exception("src/vendor/fuchsia-zircon-sys"));
    assert!(!is_exception("/home/u/rust/src/vendor/libc"));
    assert!(!is_exception("openssl"));
}

#[test]
fn vendor_check_collects_violations_in_order() {
    let dirs = vec![
        VendoredCrate { path: "src/vendor/libc".to_string(), manifest: Some(manifest("license = \"MIT/Apache-2.0\"")) },
        VendoredCrate { path: "src/vendor/gpl".to_string(), manifest: Some(manifest("license = \"GPL-2.0\"")) },
        VendoredCrate { path: "src/vendor/openssl".to_string(), manifest: None },
        VendoredCrate { path: "src/vendor/bare".to_string(), manifest: Some("[package]\n".to_string()) },
    ];
    let v = check(&dirs);
    assert_eq!(v.len(), 2);
    assert_eq!(v[0].path, "src/vendor/gpl");
    assert_eq!(v[0].license.as_deref(), Some("GPL-2.0"));
    assert_eq!(v[1].path, "src/vendor/bare");
    assert_eq!(v[1].license, None);
}

#[test]
fn vendor_check_all_clean() {
    let dirs = vec![VendoredCrate { path: "src/vendor/a".to_string(), manifest: Some(manifest("license = \"MIT\"")) }];
    assert!(check(&dirs).is_empty());
}
