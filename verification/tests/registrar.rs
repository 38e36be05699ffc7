use letitrust::gandi::Gandi;
use letitrust::ReconError;

const PAT: &str = "0123456789abcdef0123456789abcdef01234567";

#[test]
fn valid_credential_accepted() {
    assert!(Gandi::new(PAT.to_string()).is_ok());
}

#[test]
fn short_credential_rejected() {
    let e = Gandi::new("abc123".to_string()).unwrap_err();
    assert_eq!(e, "gandi_pat is not 40 characters long");
}

#[test]
fn non_hex_credential_rejected() {
    let e = Gandi::new("0123456789abcdef0123456789abcdef0123456z".to_string()).unwrap_err();
    assert_eq!(e, "gandi_pat is not hexidecimal");
}

#[test]
fn second_check_hits_the_cache() {
    let mut g = Gandi::new(PAT.to_string()).unwrap();
    assert!(g.cached_status("example.com").is_none());
    let body = "{\"products\":[{\"status\":\"unavailable\"}]}";
    let s = g.status_from_body("example.com", body).unwrap();
    assert_eq!(s, "unavailable");
    // A second check finds the cached status: no network call is needed.
    assert_eq!(g.cached_status("example.com").unwrap(), "unavailable");
}

#[test]
fn missing_status_yields_error_and_is_not_cached() {
    let mut g = Gandi::new(PAT.to_string()).unwrap();
    let s = g.status_from_body("example.com", "{\"products\":[]}").unwrap();
    assert_eq!(s, "error");
    // Still a miss: a retry would issue the network call again.
    assert!(g.cached_status("example.com").is_none());
}

#[test]
fn first_product_with_status_wins() {
    let mut g = Gandi::new(PAT.to_string()).unwrap();
    let body = "{\"products\":[{\"name\":\"x\"},{\"status\":\"available\"},{\"status\":\"other\"}]}";
    let s = g.status_from_body("example.com", body).unwrap();
    assert_eq!(s, "available");
    assert_eq!(g.cached_status("example.com").unwrap(), "available");
}

#[test]
fn malformed_body_is_a_lookup_error() {
    let mut g = Gandi::new(PAT.to_string()).unwrap();
    let r = g.status_from_body("example.com", "not json at all");
    assert!(matches!(r, Err(ReconError::Lookup(_))));
    assert!(g.cached_status("example.com").is_none());
}

#[test]
fn non_object_body_yields_error_status() {
    let mut g = Gandi::new(PAT.to_string()).unwrap();
    let s = g.status_from_body("example.com", "[1,2,3]").unwrap();
    assert_eq!(s, "error");
}

#[test]
fn caches_are_per_domain() {
    let mut g = Gandi::new(PAT.to_string()).unwrap();
    let body = "{\"products\":[{\"status\":\"unavailable\"}]}";
    g.status_from_body("a.example", body).unwrap();
    assert!(g.cached_status("b.example").is_none());
    assert_eq!(g.cached_status("a.example").unwrap(), "unavailable");
}
