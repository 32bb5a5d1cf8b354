use header_audit::artifact::Version;
use header_audit::catalog::{is_record_entry, record_lines};
use header_audit::conformance::{HeaderSpec, ObservedHeader};
use header_audit::probe::{probe_report, ProbeOutcome};

fn version(name: &str, vers: &str) -> Version {
    Version::new(name.to_string(), vers.to_string())
}

fn header(name: &str, value: &str) -> ObservedHeader {
    ObservedHeader { name: name.to_string(), value: Some(value.to_string()) }
}

fn small_spec() -> HeaderSpec {
    HeaderSpec::new(
        vec!["content-type".to_string(), "server".to_string()],
        vec!["age".to_string()],
        vec![("server".to_string(), "AmazonS3".to_string())],
    )
}

#[test]
fn failed_fetch_gives_one_line() {
    let r = probe_report(
        &version("rand", "0.8.5"),
        &small_spec(),
        &ProbeOutcome::Failure("connection refused".to_string()),
    );
    assert_eq!(r, vec!["rand (0.8.5): connection refused".to_string()]);
}

#[test]
fn success_gives_one_line_per_anomaly() {
    let outcome = ProbeOutcome::Success(vec![header("server", "nginx"), header("x-foo", "1")]);
    let r = probe_report(&version("log", "0.4.0"), &small_spec(), &outcome);
    assert_eq!(
        r,
        vec![
            "log (0.4.0): Response did not contain 'content-type' header.".to_string(),
            "log (0.4.0): Response contained unexpected 'x-foo' header.".to_string(),
            "log (0.4.0): Header 'server' has unexpected value '\"nginx\"'.".to_string(),
        ]
    );
}

#[test]
fn conforming_probe_gives_no_line() {
    let outcome = ProbeOutcome::Success(vec![
        header("Content-Type", "application/x-tar"),
        header("server", "AmazonS3"),
        header("age", "1"),
    ]);
    let r = probe_report(&version("log", "0.4.0"), &small_spec(), &outcome);
    assert!(r.is_empty());
}

#[test]
fn completion_order_does_not_change_the_lines() {
    let spec = small_spec();
    let items = vec![
        (version("a", "1.0.0"), ProbeOutcome::Failure("timed out".to_string())),
        (version("b", "2.0.0"), ProbeOutcome::Success(vec![header("server", "x")])),
        (version("c", "3.0.0"), ProbeOutcome::Success(vec![header("content-type", "t")])),
    ];
    let mut in_order: Vec<String> = Vec::new();
    for (v, o) in items.iter() {
        in_order.extend(probe_report(v, &spec, o));
    }
    let mut reversed: Vec<String> = Vec::new();
    for (v, o) in items.iter().rev() {
        reversed.extend(probe_report(v, &spec, o));
    }
    assert_ne!(in_order, reversed);
    in_order.sort();
    reversed.sort();
    assert_eq!(in_order, reversed);
    assert_eq!(in_order.len(), 4);
}

#[test]
fn catalog_skips_control_entries() {
    assert!(!is_record_entry(&".git".to_string()));
    assert!(!is_record_entry(&"config.json".to_string()));
    assert!(is_record_entry(&"serde".to_string()));
    assert!(is_record_entry(&".github".to_string()));
    assert!(is_record_entry(&"config.json.bak".to_string()));
}

#[test]
fn record_file_is_cut_into_non_empty_lines() {
    let content = b"{\"name\":\"a\"}\r\n\n{\"name\":\"b\"}\n{\"name\":\"c\"}".to_vec();
    assert_eq!(
        record_lines(&content),
        vec![
            b"{\"name\":\"a\"}".to_vec(),
            b"{\"name\":\"b\"}".to_vec(),
            b"{\"name\":\"c\"}".to_vec(),
        ]
    );
}

#[test]
fn empty_record_file_has_no_record() {
    assert!(record_lines(&vec![]).is_empty());
    assert!(record_lines(&b"\n\r\n\n".to_vec()).is_empty());
}
