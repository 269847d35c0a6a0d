use vortex::guest::{make_report, parse_url, report, UrlScheme};

#[test]
fn url_with_a_path() {
    let target = parse_url(" https://example.com:8443/a/b?c=d\n").unwrap();
    assert_eq!(target.scheme, UrlScheme::Https);
    assert_eq!(target.authority, "example.com:8443");
    assert_eq!(target.path, "/a/b?c=d");
}

#[test]
fn url_without_a_path() {
    let target = parse_url("http://example.com").unwrap();
    assert_eq!(target.scheme, UrlScheme::Http);
    assert_eq!(target.authority, "example.com");
    assert_eq!(target.path, "/");
    assert_eq!(parse_url("http://").unwrap().authority, "");
}

#[test]
fn url_of_another_scheme() {
    assert!(parse_url("ftp://example.com").is_none());
    assert!(parse_url("HTTP://example.com").is_none());
    assert!(parse_url("http:/").is_none());
    assert!(parse_url("").is_none());
}

#[test]
fn report_of_a_response() {
    assert_eq!(report(200, b"ok"), "status: 200\nbody_length: 2\nbody: ok\n");
    assert_eq!(report(65535, b"\xffx"), "status: 65535\nbody_length: 2\nbody: \u{fffd}x\n");
    assert_eq!(make_report(404, 0, ""), "status: 404\nbody_length: 0\nbody: \n");
}

#[test]
fn url_is_made_up_of_its_parts() {
    for url in ["http://a/b", "https://x:1/", "http:///", "https://h/p/q?r#s"] {
        let target = parse_url(url).unwrap();
        let prefix = match target.scheme {
            UrlScheme::Https => "https://",
            UrlScheme::Http => "http://",
        };
        assert_eq!(format!("{prefix}{}{}", target.authority, target.path), url);
        assert!(!target.authority.contains('/'));
        assert!(target.path.starts_with('/'));
    }
}
