use letitrust::tenant::tenant_candidates;
use letitrust::ReconError;

#[test]
fn placeholder_tenant_discarded_real_domain_kept() {
    let body = "<Domain>sales.contoso.onmicrosoft.com</Domain><Domain>contoso.com</Domain>";
    let domains = tenant_candidates(body).unwrap();
    assert_eq!(domains, vec!["contoso.com".to_string()]);
}

#[test]
fn captures_are_canonicalized() {
    let body = "prefix <Domain>mail.fabrikam.co.uk</Domain> suffix";
    let domains = tenant_candidates(body).unwrap();
    assert_eq!(domains, vec!["fabrikam.co.uk".to_string()]);
}

#[test]
fn capture_does_not_cross_lines() {
    let body = "<Domain>broken\ncapture</Domain><Domain>example.com</Domain>";
    let domains = tenant_candidates(body).unwrap();
    assert_eq!(domains, vec!["example.com".to_string()]);
}

#[test]
fn no_captures_yield_no_domains() {
    assert!(tenant_candidates("<soap:Envelope></soap:Envelope>").unwrap().is_empty());
}

#[test]
fn single_label_capture_fails() {
    let r = tenant_candidates("<Domain>localhost</Domain>");
    assert!(matches!(r, Err(ReconError::NotCanonicalizable)));
}

#[test]
fn captures_keep_response_order() {
    let body = "<Domain>b.example.org</Domain><Domain>a.example.net</Domain>";
    let domains = tenant_candidates(body).unwrap();
    assert_eq!(domains, vec!["example.org".to_string(), "example.net".to_string()]);
}
