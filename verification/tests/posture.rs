use letitrust::dns::{dmarc_query_name, DmarcPosture, DnsChecker, SpfPosture};
use letitrust::ReconError;

fn checker() -> DnsChecker {
    DnsChecker::new(vec!["8.8.8.8".to_string()])
}

#[test]
fn softfail_record_with_one_target() {
    let mut c = checker();
    let answers = vec!["v=spf1 include:spf.example.com ~all".to_string()];
    let (posture, includes) = c.spf_records_check("example.com", &answers).unwrap();
    assert_eq!(posture, Some(SpfPosture::SoftFail));
    assert_eq!(includes, vec!["example.com".to_string()]);
}

#[test]
fn outlook_target_never_listed() {
    let mut c = checker();
    let answers = vec![
        "v=spf1 include:spf.protection.outlook.com include:spf.example.net ~all".to_string(),
    ];
    let (posture, includes) = c.spf_records_check("example.com", &answers).unwrap();
    assert_eq!(posture, Some(SpfPosture::SoftFail));
    assert_eq!(includes, vec!["example.net".to_string()]);
}

#[test]
fn no_spf_record_is_missing() {
    let mut c = checker();
    let answers = vec!["some unrelated txt".to_string()];
    let (posture, includes) = c.spf_records_check("example.com", &answers).unwrap();
    assert_eq!(posture, Some(SpfPosture::Missing));
    assert!(includes.is_empty());
}

#[test]
fn empty_answer_set_is_missing() {
    let mut c = checker();
    let (posture, includes) = c.spf_records_check("example.com", &Vec::new()).unwrap();
    assert_eq!(posture, Some(SpfPosture::Missing));
    assert!(includes.is_empty());
}

#[test]
fn strict_record_yields_no_signal() {
    let mut c = checker();
    let answers = vec!["v=spf1 -all".to_string()];
    let (posture, includes) = c.spf_records_check("example.com", &answers).unwrap();
    assert_eq!(posture, None);
    assert!(includes.is_empty());
}

#[test]
fn quoted_fragments_collapse_before_matching() {
    let mut c = checker();
    // A TXT answer split across fragments renders with a splice between the
    // quoted parts; matching must see the collapsed text.
    let answers = vec!["\"v=sp\" \"f1 ~all\"".to_string()];
    let (posture, _includes) = c.spf_records_check("example.com", &answers).unwrap();
    assert_eq!(posture, Some(SpfPosture::SoftFail));
}

#[test]
fn raw_targets_precede_canonicalization() {
    let answers = vec!["v=spf1 include:mail.sub.example.com include:a.co.uk ~all".to_string()];
    let raw = DnsChecker::spf_targets_raw(&answers);
    assert_eq!(raw, vec!["mail.sub.example.com".to_string(), "a.co.uk".to_string()]);
    let mut c = checker();
    let (_posture, includes) = c.spf_records_check("example.com", &answers).unwrap();
    assert_eq!(includes, vec!["example.com".to_string(), "a.co.uk".to_string()]);
}

#[test]
fn target_with_subdomain_is_canonicalized() {
    let mut c = checker();
    let answers = vec!["v=spf1 include:mail.sub.example.com ~all".to_string()];
    let (_posture, includes) = c.spf_records_check("example.com", &answers).unwrap();
    assert_eq!(includes, vec!["example.com".to_string()]);
}

#[test]
fn comma_ends_a_target() {
    let mut c = checker();
    let answers = vec!["v=spf1 include:a.example.org,rest ~all".to_string()];
    let (_posture, includes) = c.spf_records_check("example.com", &answers).unwrap();
    assert_eq!(includes, vec!["example.org".to_string()]);
}

#[test]
fn single_label_target_fails() {
    let mut c = checker();
    let answers = vec!["v=spf1 include:localhost ~all".to_string()];
    let r = c.spf_records_check("example.com", &answers);
    assert!(matches!(r, Err(ReconError::NotCanonicalizable)));
}

#[test]
fn dmarc_policy_none_detected() {
    let c = checker();
    let answers = vec!["v=DMARC1; p=none;".to_string()];
    assert_eq!(c.dmarc_check(&answers), Some(DmarcPosture::PolicyNone));
}

#[test]
fn dmarc_zero_answers_is_missing() {
    let c = checker();
    assert_eq!(c.dmarc_check(&Vec::new()), Some(DmarcPosture::Missing));
}

#[test]
fn dmarc_any_answer_avoids_missing() {
    let c = checker();
    let answers = vec!["v=DMARC1; p=reject;".to_string()];
    assert_eq!(c.dmarc_check(&answers), None);
}

#[test]
fn dmarc_query_name_prefixes_label() {
    assert_eq!(dmarc_query_name("example.com"), "_dmarc.example.com");
}

#[test]
fn resolver_pick_appends_dns_port() {
    let c = checker();
    assert_eq!(c.pick_resolver(), "8.8.8.8:53");
}
