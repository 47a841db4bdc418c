//! Endpoints, templates, authorities.

use zeromasque::authority::host_of;
use zeromasque::authority::split_host_port;
use zeromasque::authority::HostPortError;
use zeromasque::endpoint::path_only;
use zeromasque::endpoint::Endpoint;
use zeromasque::endpoint::EndpointError;
use zeromasque::template::MatchError;
use zeromasque::template::Template;
use zeromasque::template::TemplateError;

#[test]
fn host_of_strips_port_and_brackets() {
    assert_eq!(host_of("localhost:4433"), "localhost");
    assert_eq!(host_of("example.com"), "example.com");
    assert_eq!(host_of("[2001:db8::1]:443"), "2001:db8::1");
}

#[test]
fn host_of_without_closing_bracket_cuts_at_the_last_colon() {
    assert_eq!(host_of("[2001:db8::1"), "[2001:db8:");
    assert_eq!(host_of("[::1]"), "::1");
    assert_eq!(host_of(""), "");
}

#[test]
fn host_and_port_are_split() {
    assert_eq!(
        split_host_port("example.com:53").unwrap(),
        ("example.com".to_string(), 53)
    );
    assert_eq!(
        split_host_port("[2001:db8::1]:65535").unwrap(),
        ("2001:db8::1".to_string(), 65535)
    );
    assert_eq!(
        split_host_port("a:b:7").unwrap(),
        ("a:b".to_string(), 7)
    );
    assert_eq!(split_host_port("h:+7").unwrap().1, 7);
}

#[test]
fn host_and_port_errors() {
    assert_eq!(split_host_port("[::1]53"), Err(HostPortError::Brackets));
    assert_eq!(split_host_port("example.com"), Err(HostPortError::NoPort));
    assert_eq!(split_host_port("h:65536"), Err(HostPortError::BadPort));
    assert_eq!(split_host_port("h:"), Err(HostPortError::BadPort));
    assert_eq!(split_host_port("[::1]:x"), Err(HostPortError::BadPort));
}

#[test]
fn parses_authority_and_path() {
    let e = Endpoint::parse("https://localhost:4433/connect").unwrap();
    assert_eq!(e.authority, "localhost:4433");
    assert_eq!(e.path, "/connect");
    assert!(e.matches("/connect"));
    // The query string is ignored when matching.
    assert!(e.matches("/connect?x=1"));
    assert!(!e.matches("/other"));
}

#[test]
fn query_is_ignored_when_matching() {
    // Compatible with variable-template clients: the server endpoint can be
    // a bare path, and a client that sends target_host/target_port in the
    // query still matches.
    let e = Endpoint::parse("https://proxy:4433/masque").unwrap();
    assert!(e.matches("/masque?h=127.0.0.1&p=53"));
    assert!(e.matches("/masque"));
    assert!(!e.matches("/other?h=127.0.0.1&p=53"));

    // A configured query is likewise ignored on the server side.
    let e2 = Endpoint::parse("https://proxy:4433/masque?ignored=1").unwrap();
    assert!(e2.matches("/masque?h=1&p=2"));
    assert!(e2.matches("/masque"));
}

#[test]
fn defaults_path_when_absent() {
    let e = Endpoint::parse("https://proxy:4433").unwrap();
    assert_eq!(e.authority, "proxy:4433");
    assert_eq!(e.path, "/");
}

#[test]
fn rejects_relative_uri() {
    assert!(Endpoint::parse("/connect").is_err());
}

#[test]
fn endpoint_errors_and_raw_text() {
    assert_eq!(
        Endpoint::parse("/connect").err(),
        Some(EndpointError::NotAbsolute)
    );
    assert_eq!(
        Endpoint::parse("https:///connect").err(),
        Some(EndpointError::NoAuthority)
    );
    let e = Endpoint::parse("https://h/a?b").unwrap();
    assert_eq!(e.raw, "https://h/a?b");
    assert_eq!(e.path, "/a?b");
}

#[test]
fn path_component_ends_at_the_first_question_mark() {
    assert_eq!(path_only("/a?b?c"), "/a");
    assert_eq!(path_only("/a"), "/a");
    assert_eq!(path_only("?x"), "");
}

#[test]
fn query_form_roundtrip() {
    let t =
        Template::parse("https://localhost:4433/masque?h={target_host}&p={target_port}").unwrap();
    assert_eq!(t.authority, "localhost:4433");
    let path = t.expand("192.0.2.1", 4242);
    assert_eq!(path, "/masque?h=192.0.2.1&p=4242");
    assert_eq!(
        t.match_path(&path).unwrap(),
        ("192.0.2.1".to_string(), 4242)
    );
}

#[test]
fn well_known_path_form_roundtrip() {
    let t = Template::parse(
        "https://proxy.example/.well-known/masque/udp/{target_host}/{target_port}/",
    )
    .unwrap();
    let path = t.expand("example.com", 443);
    assert_eq!(path, "/.well-known/masque/udp/example.com/443/");
    assert_eq!(
        t.match_path(&path).unwrap(),
        ("example.com".to_string(), 443)
    );
}

#[test]
fn ipv6_host_is_percent_encoded() {
    let t = Template::parse("https://h/p?h={target_host}&p={target_port}").unwrap();
    let path = t.expand("2001:db8::1", 53);
    assert!(path.contains("2001%3Adb8%3A%3A1"));
    assert_eq!(t.match_path(&path).unwrap().0, "2001:db8::1");
}

#[test]
fn rejects_missing_variables() {
    assert!(Template::parse("https://h/p?h={target_host}").is_err());
    assert!(Template::parse("https://h/p").is_err());
}

#[test]
fn template_errors() {
    assert_eq!(
        Template::parse("/p?h={target_host}&p={target_port}").err(),
        Some(TemplateError::NotAbsolute)
    );
    assert_eq!(
        Template::parse("https://h/p").err(),
        Some(TemplateError::MissingHost)
    );
    assert_eq!(
        Template::parse("https://h/p?h={target_host}").err(),
        Some(TemplateError::MissingPort)
    );
}

#[test]
fn match_errors() {
    let t = Template::parse("https://h/p?h={target_host}&p={target_port}/").unwrap();
    assert_eq!(t.match_path("/q?h=a&p=1/"), Err(MatchError::Prefix));
    assert_eq!(t.match_path("/p?h=a"), Err(MatchError::Separator));
    assert_eq!(t.match_path("/p?h=a&p=1"), Err(MatchError::Suffix));
    assert_eq!(t.match_path("/p?h=&p=1/"), Err(MatchError::Empty));
    assert_eq!(t.match_path("/p?h=a&p=x/"), Err(MatchError::Port));
}
