use header_audit::artifact::Version;
use header_audit::conformance::{
    check_headers, check_normalized, normalize_names, Anomaly, HeaderSpec, ObservedHeader,
};

fn header(name: &str, value: &str) -> ObservedHeader {
    ObservedHeader { name: name.to_string(), value: Some(value.to_string()) }
}

fn strings(names: &[&str]) -> Vec<String> {
    names.iter().map(|n| n.to_string()).collect()
}

fn conforming_headers() -> Vec<ObservedHeader> {
    vec![
        header("content-type", "application/x-tar"),
        header("content-length", "1234"),
        header("connection", "keep-alive"),
        header("date", "Mon, 01 Jan 2024 00:00:00 GMT"),
        header("last-modified", "Mon, 01 Jan 2024 00:00:00 GMT"),
        header("etag", "\"abc\""),
        header("x-amz-version-id", "null"),
        header("accept-ranges", "bytes"),
        header("server", "AmazonS3"),
        header("x-cache", "Hit from cloudfront"),
        header("via", "1.1 example.cloudfront.net (CloudFront)"),
        header("x-amz-cf-pop", "FRA2"),
        header("x-amz-cf-id", "abcdef"),
    ]
}

#[test]
fn conforming_response_has_no_anomaly() {
    let spec = HeaderSpec::download_host();
    assert_eq!(check_headers(&spec, &conforming_headers()), vec![]);
}

#[test]
fn exact_required_set_gives_no_anomaly() {
    let spec = HeaderSpec::new(strings(&["content-type", "server"]), vec![], vec![]);
    let observed = vec![header("server", "x"), header("content-type", "y")];
    assert_eq!(check_normalized(&spec, &observed), vec![]);
}

#[test]
fn one_missing_required_header() {
    let spec = HeaderSpec::new(strings(&["content-type", "server"]), vec![], vec![]);
    let observed = vec![header("content-type", "application/x-tar")];
    let r = check_headers(&spec, &observed);
    assert_eq!(r, vec![Anomaly::MissingHeader("server".to_string())]);
    assert_eq!(r[0].message(), "Response did not contain 'server' header.");
}

#[test]
fn tolerated_age_is_not_unexpected() {
    let spec = HeaderSpec::download_host();
    let mut observed = conforming_headers();
    observed.push(header("age", "12"));
    assert_eq!(check_headers(&spec, &observed), vec![]);
}

#[test]
fn unknown_header_is_reported_once() {
    let spec = HeaderSpec::download_host();
    let mut observed = conforming_headers();
    observed.push(header("x-foo", "1"));
    observed.push(header("X-Foo", "2"));
    let r = check_headers(&spec, &observed);
    assert_eq!(r, vec![Anomaly::UnexpectedHeader("x-foo".to_string())]);
    assert_eq!(r[0].message(), "Response contained unexpected 'x-foo' header.");
}

#[test]
fn value_comparison_is_case_sensitive() {
    let spec = HeaderSpec::download_host();
    let mut observed = conforming_headers();
    observed[8] = header("server", "amazons3");
    let r = check_headers(&spec, &observed);
    assert_eq!(
        r,
        vec![Anomaly::UnexpectedValue("server".to_string(), Some("amazons3".to_string()))]
    );
    assert_eq!(r[0].message(), "Header 'server' has unexpected value '\"amazons3\"'.");
}

#[test]
fn value_that_is_not_text_is_a_mismatch() {
    let spec = HeaderSpec::download_host();
    let mut observed = conforming_headers();
    observed[2] = ObservedHeader { name: "connection".to_string(), value: None };
    let r = check_headers(&spec, &observed);
    assert_eq!(r, vec![Anomaly::UnexpectedValue("connection".to_string(), None)]);
    assert_eq!(r[0].message(), "Header 'connection' has a value that is not text.");
}

#[test]
fn absent_exact_value_header_is_not_a_value_anomaly() {
    let spec = HeaderSpec::new(
        vec![],
        vec![],
        vec![("server".to_string(), "AmazonS3".to_string())],
    );
    assert_eq!(check_headers(&spec, &vec![]), vec![]);
}

#[test]
fn header_names_compare_in_lower_case() {
    let spec = HeaderSpec::new(
        strings(&["content-type"]),
        vec![],
        vec![("content-type".to_string(), "application/x-tar".to_string())],
    );
    let observed = vec![header("Content-Type", "Application/X-Tar")];
    let lowered = normalize_names(&observed);
    assert_eq!(lowered, vec![header("content-type", "Application/X-Tar")]);
    assert_eq!(
        check_headers(&spec, &observed),
        vec![Anomaly::UnexpectedValue(
            "content-type".to_string(),
            Some("Application/X-Tar".to_string())
        )]
    );
}

#[test]
fn anomalies_come_in_step_order() {
    let spec = HeaderSpec::new(
        strings(&["etag", "date"]),
        strings(&["age"]),
        vec![("server".to_string(), "AmazonS3".to_string())],
    );
    let observed = vec![header("server", "nginx"), header("x-b", "1"), header("age", "3")];
    assert_eq!(
        check_headers(&spec, &observed),
        vec![
            Anomaly::MissingHeader("etag".to_string()),
            Anomaly::MissingHeader("date".to_string()),
            Anomaly::UnexpectedHeader("server".to_string()),
            Anomaly::UnexpectedHeader("x-b".to_string()),
            Anomaly::UnexpectedValue("server".to_string(), Some("nginx".to_string())),
        ]
    );
}

#[test]
fn checking_twice_gives_the_same_anomalies() {
    let spec = HeaderSpec::download_host();
    let observed = vec![header("Server", "nginx"), header("x-foo", "1")];
    let first = check_headers(&spec, &observed);
    let second = check_headers(&spec, &observed);
    assert_eq!(first, second);
    assert!(!first.is_empty());
}

#[test]
fn version_texts() {
    let v = Version::new("serde".to_string(), "1.0.0".to_string());
    assert_eq!(v.label(), "serde (1.0.0)");
    assert_eq!(
        v.metadata_url(),
        "https://static.crates.io/crates/serde/serde-1.0.0.crate"
    );
}

#[test]
fn quotes_in_a_wrong_value_are_escaped() {
    let a = Anomaly::UnexpectedValue("etag".to_string(), Some("say \"hi\" now".to_string()));
    assert_eq!(a.message(), "Header 'etag' has unexpected value '\"say \\\"hi\\\" now\"'.");
    let b = Anomaly::UnexpectedValue("etag".to_string(), Some(String::new()));
    assert_eq!(b.message(), "Header 'etag' has unexpected value '\"\"'.");
}

#[test]
fn adding_age_leaves_the_anomalies_unchanged() {
    let spec = HeaderSpec::download_host();
    let base = vec![header("server", "nginx"), header("x-bar", "1")];
    let mut with_age = base.clone();
    with_age.push(header("age", "30"));
    assert_eq!(check_headers(&spec, &with_age), check_headers(&spec, &base));
}

#[test]
fn adding_an_unknown_header_adds_one_anomaly() {
    let spec = HeaderSpec::download_host();
    let base = vec![header("server", "nginx"), header("x-bar", "1")];
    let mut with_foo = base.clone();
    with_foo.push(header("x-foo", "1"));
    let mut expected = check_headers(&spec, &base);
    let after = check_headers(&spec, &with_foo);
    assert_eq!(after.len(), expected.len() + 1);
    expected.push(Anomaly::UnexpectedHeader("x-foo".to_string()));
    for a in expected.iter() {
        assert_eq!(
            after.iter().filter(|b| *b == a).count(),
            expected.iter().filter(|b| *b == a).count()
        );
    }
}
