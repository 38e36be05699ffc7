use letitrust::domain::simplify_domain;

#[test]
fn ccsld_host_keeps_three_labels() {
    assert_eq!(simplify_domain("www.example.co.uk").unwrap(), "example.co.uk");
}

#[test]
fn canonical_domain_is_identity() {
    assert_eq!(simplify_domain("example.com").unwrap(), "example.com");
}

#[test]
fn single_label_is_not_canonicalizable() {
    assert!(simplify_domain("com").is_none());
}

#[test]
fn empty_string_is_not_canonicalizable() {
    assert!(simplify_domain("").is_none());
}

#[test]
fn deep_host_keeps_two_labels() {
    assert_eq!(simplify_domain("a.b.c.example.org").unwrap(), "example.org");
}

#[test]
fn deep_ccsld_host_keeps_three_labels() {
    assert_eq!(simplify_domain("mail.corp.example.co.uk").unwrap(), "example.co.uk");
}

#[test]
fn two_label_host_unchanged_even_with_sld_token() {
    assert_eq!(simplify_domain("co.uk").unwrap(), "co.uk");
}

#[test]
fn empty_labels_are_labels_too() {
    // str::split keeps empty pieces; a leading dot makes two labels.
    assert_eq!(simplify_domain(".com").unwrap(), ".com");
    assert_eq!(simplify_domain("a..b").unwrap(), ".b");
}

#[test]
fn canonicalization_is_idempotent_once_it_succeeds() {
    let once = simplify_domain("smtp.mail.example.ac.jp").unwrap();
    let twice = simplify_domain(&once).unwrap();
    assert_eq!(once, twice);
    let once = simplify_domain("x.y.z.w.example.net").unwrap();
    let twice = simplify_domain(&once).unwrap();
    assert_eq!(once, twice);
}
