use saba_core::Error;
use saba_core::HttpClient;
use saba_core::HttpResponse;

#[test]
fn client_handle_is_constructible() {
    let _client = HttpClient::new();
}

#[test]
fn empty_lookup_is_a_network_error() {
    let client = HttpClient::new();
    match client.validate_lookup(0) {
        Err(Error::Network(m)) => assert_eq!(m, "Failed to find IP addresses"),
        Ok(()) => panic!("zero addresses must not be an empty success"),
    }
    assert!(client.validate_lookup(1).is_ok());
    assert!(client.validate_lookup(7).is_ok());
}

#[test]
fn failed_lookup_reports_the_resolver_detail() {
    let client = HttpClient::new();
    let e = client.lookup_failure("NoSuchHost");
    match e {
        Error::Network(m) => assert_eq!(m, "Failed to find IP address:NoSuchHost"),
    }
}

#[test]
fn network_error_carries_its_message() {
    let e = Error::Network("Failed to find IP addresses".to_string());
    assert_eq!(e.message(), "Failed to find IP addresses");
}

#[test]
fn response_keeps_its_parts() {
    let r = HttpResponse::new(
        200,
        vec![("Content-Type".to_string(), "text/html".to_string())],
        "<html></html>".to_string(),
    );
    assert_eq!(r.status_code, 200);
    assert_eq!(r.headers.len(), 1);
    assert_eq!(r.headers[0].0, "Content-Type");
    assert_eq!(r.headers[0].1, "text/html");
    assert_eq!(r.body, "<html></html>");
}
