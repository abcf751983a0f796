use shortlinks::host::HostClass;
use shortlinks::host::classify_host;
use shortlinks::host::strip_port;
use shortlinks::index::IndexTemplate;
use shortlinks::resolve::Outcome;
use shortlinks::resolve::path_key;
use shortlinks::resolve::resolve;
use shortlinks::table::RedirectEntry;
use shortlinks::table::RedirectTable;

const BASE: &str = "rwth.cool";

fn entry(url: &str, aliases: &[&str]) -> RedirectEntry {
    RedirectEntry {
        target_url: String::from(url),
        description: String::from("a description"),
        category: None,
        aliases: aliases.iter().map(|a| String::from(*a)).collect(),
    }
}

fn table() -> RedirectTable {
    RedirectTable::new(vec![
        (String::from("foo"), entry("https://foo.example/", &["f"])),
        (String::from("otherkey"), entry("https://other.example/", &[])),
        (String::from("moodle"), entry("https://moodle.example/", &["m", "lms"])),
    ])
}

#[test]
fn classify_bare_domain() {
    assert_eq!(classify_host("rwth.cool", BASE), HostClass::IsBareDomain);
}

#[test]
fn classify_subdomain() {
    assert_eq!(
        classify_host("moodle.rwth.cool", BASE),
        HostClass::HasSubdomain(String::from("moodle"))
    );
}

#[test]
fn classify_ipv4() {
    assert_eq!(classify_host("127.0.0.1", BASE), HostClass::IsBareDomain);
}

#[test]
fn classify_localhost() {
    assert_eq!(classify_host("localhost", BASE), HostClass::IsBareDomain);
}

#[test]
fn classify_empty_host() {
    assert_eq!(classify_host("", BASE), HostClass::IsBareDomain);
}

#[test]
fn classify_with_port() {
    assert_eq!(
        classify_host("rwth.cool:3000", BASE),
        classify_host("rwth.cool", BASE)
    );
    assert_eq!(
        classify_host("moodle.rwth.cool:3000", BASE),
        classify_host("moodle.rwth.cool", BASE)
    );
}

#[test]
fn classify_ipv4_with_port() {
    assert_eq!(classify_host("127.0.0.1:8080", BASE), HostClass::IsBareDomain);
}

#[test]
fn classify_not_quite_ipv4() {
    assert_eq!(
        classify_host("256.0.0.1", BASE),
        HostClass::HasSubdomain(String::from("256"))
    );
    assert_eq!(
        classify_host("1.2.3.4.5", BASE),
        HostClass::HasSubdomain(String::from("1"))
    );
}

#[test]
fn classify_two_label_domain() {
    assert_eq!(classify_host("example.com", BASE), HostClass::IsBareDomain);
}

#[test]
fn classify_ipv6_literal() {
    assert_eq!(classify_host("[::1]:8080", BASE), HostClass::IsBareDomain);
    assert_eq!(classify_host("::1", BASE), HostClass::IsBareDomain);
}

#[test]
fn strip_port_basic() {
    assert_eq!(strip_port("rwth.cool:3000"), String::from("rwth.cool"));
}

#[test]
fn strip_port_none() {
    assert_eq!(strip_port("rwth.cool"), String::from("rwth.cool"));
}

#[test]
fn strip_port_only_colons() {
    assert_eq!(strip_port("::1"), String::from(""));
}

#[test]
fn path_key_segments() {
    assert_eq!(path_key("/foo/bar"), String::from("foo"));
    assert_eq!(path_key("/foo"), String::from("foo"));
    assert_eq!(path_key("foo"), String::from("foo"));
    assert_eq!(path_key("/"), String::from(""));
    assert_eq!(path_key(""), String::from(""));
    assert_eq!(path_key("//foo"), String::from(""));
}

#[test]
fn resolve_subdomain_match() {
    let t = table();
    assert_eq!(
        resolve("foo.rwth.cool", "/", BASE, &t),
        Outcome::Redirect(String::from("https://foo.example/"))
    );
}

#[test]
fn resolve_path_match() {
    let t = table();
    assert_eq!(
        resolve("rwth.cool", "/foo", BASE, &t),
        Outcome::Redirect(String::from("https://foo.example/"))
    );
}

#[test]
fn resolve_index_on_bare_domain() {
    let t = table();
    assert_eq!(resolve("rwth.cool", "/", BASE, &t), Outcome::ShowIndex);
    assert_eq!(resolve("rwth.cool", "", BASE, &t), Outcome::ShowIndex);
}

#[test]
fn resolve_not_found() {
    let t = table();
    assert_eq!(resolve("rwth.cool", "/doesnotexist", BASE, &t), Outcome::NotFound);
}

#[test]
fn resolve_fallthrough_to_path() {
    let t = table();
    assert_eq!(
        resolve("sub.rwth.cool", "/otherkey", BASE, &t),
        Outcome::Redirect(String::from("https://other.example/"))
    );
}

#[test]
fn resolve_subdomain_wins_over_path() {
    let t = table();
    assert_eq!(
        resolve("foo.rwth.cool", "/otherkey", BASE, &t),
        Outcome::Redirect(String::from("https://foo.example/"))
    );
}

#[test]
fn resolve_with_port() {
    let t = table();
    assert_eq!(
        resolve("rwth.cool:3000", "/foo", BASE, &t),
        Outcome::Redirect(String::from("https://foo.example/"))
    );
    assert_eq!(resolve("rwth.cool:3000", "/", BASE, &t), Outcome::ShowIndex);
}

#[test]
fn resolve_alias_via_subdomain() {
    let t = table();
    assert_eq!(
        resolve("lms.rwth.cool", "/", BASE, &t),
        Outcome::Redirect(String::from("https://moodle.example/"))
    );
}

#[test]
fn resolve_alias_via_path() {
    let t = table();
    assert_eq!(
        resolve("rwth.cool", "/m", BASE, &t),
        Outcome::Redirect(String::from("https://moodle.example/"))
    );
}

#[test]
fn resolve_multi_segment_path() {
    let t = table();
    assert_eq!(
        resolve("rwth.cool", "/foo/bar/baz", BASE, &t),
        Outcome::Redirect(String::from("https://foo.example/"))
    );
}

#[test]
fn resolve_double_slash_path() {
    let t = table();
    assert_eq!(resolve("rwth.cool", "//foo", BASE, &t), Outcome::NotFound);
}

#[test]
fn resolve_empty_host() {
    let t = table();
    assert_eq!(resolve("", "", BASE, &t), Outcome::NotFound);
}

#[test]
fn resolve_no_index_on_other_domain() {
    let t = table();
    assert_eq!(resolve("example.com", "/", BASE, &t), Outcome::NotFound);
}

#[test]
fn resolve_subdomain_of_other_domain() {
    let t = table();
    assert_eq!(
        resolve("foo.example.org", "/", BASE, &t),
        Outcome::Redirect(String::from("https://foo.example/"))
    );
}

#[test]
fn resolve_key_direct() {
    let t = table();
    let e = t.resolve_key("foo").expect("primary key must resolve");
    assert_eq!(e.target_url, String::from("https://foo.example/"));
}

#[test]
fn resolve_key_alias() {
    let t = table();
    let direct = t.resolve_key("moodle").expect("primary key must resolve");
    let via_alias = t.resolve_key("lms").expect("alias must resolve");
    assert_eq!(direct.target_url, via_alias.target_url);
}

#[test]
fn resolve_key_missing() {
    let t = table();
    assert!(t.resolve_key("nope").is_none());
}

#[test]
fn resolve_key_direct_match_precedence() {
    // "b" is a primary key and also declared as an alias of "a":
    // the direct match must win.
    let t = RedirectTable::new(vec![
        (String::from("a"), entry("https://a.example/", &["b"])),
        (String::from("b"), entry("https://b.example/", &[])),
    ]);
    let e = t.resolve_key("b").expect("primary key must resolve");
    assert_eq!(e.target_url, String::from("https://b.example/"));
}

#[test]
fn alias_collision_last_write_wins() {
    // Two entries declare the alias "x"; the later entry's declaration wins.
    let t = RedirectTable::new(vec![
        (String::from("a"), entry("https://a.example/", &["x"])),
        (String::from("b"), entry("https://b.example/", &["x"])),
    ]);
    let e = t.resolve_key("x").expect("alias must resolve");
    assert_eq!(e.target_url, String::from("https://b.example/"));
}

#[test]
fn index_listing_sorted() {
    let t = RedirectTable::new(vec![
        (String::from("zeta"), entry("https://z.example/", &[])),
        (String::from("alpha"), entry("https://a.example/", &[])),
        (String::from("mid"), entry("https://m.example/", &[])),
    ]);
    let listing = IndexTemplate::new(&t);
    let keys: Vec<&str> = listing.redirects.iter().map(|p| p.0.as_str()).collect();
    assert_eq!(keys, vec!["alpha", "mid", "zeta"]);
    assert_eq!(listing.redirects[0].1.target_url, String::from("https://a.example/"));
}

fn entry_cat(url: &str, category: &str) -> RedirectEntry {
    RedirectEntry {
        target_url: String::from(url),
        description: String::from("a description"),
        category: Some(String::from(category)),
        aliases: Vec::new(),
    }
}

#[test]
fn grouped_by_category() {
    let t = RedirectTable::new(vec![
        (String::from("zeta"), entry_cat("https://z.example/", "Tools")),
        (String::from("alpha"), entry("https://a.example/", &[])),
        (String::from("beta"), entry_cat("https://b.example/", "Apps")),
        (String::from("gamma"), entry_cat("https://g.example/", "Tools")),
    ]);
    let groups = IndexTemplate::new(&t).grouped();
    let labels: Vec<&str> = groups.iter().map(|g| g.0.as_str()).collect();
    assert_eq!(labels, vec!["Apps", "Tools", "Other"]);
    let tools: Vec<&str> = groups[1].1.iter().map(|p| p.0.as_str()).collect();
    assert_eq!(tools, vec!["gamma", "zeta"]);
    let other: Vec<&str> = groups[2].1.iter().map(|p| p.0.as_str()).collect();
    assert_eq!(other, vec!["alpha"]);
}

#[test]
fn grouped_other_bucket_is_last() {
    let t = RedirectTable::new(vec![
        (String::from("a"), entry("https://a.example/", &[])),
        (String::from("b"), entry_cat("https://b.example/", "Zz")),
    ]);
    let groups = IndexTemplate::new(&t).grouped();
    let labels: Vec<&str> = groups.iter().map(|g| g.0.as_str()).collect();
    assert_eq!(labels, vec!["Zz", "Other"]);
}

#[test]
fn index_listing_complete() {
    let t = table();
    let listing = IndexTemplate::new(&t);
    assert_eq!(listing.redirects.len(), 3);
    let keys: Vec<&str> = listing.redirects.iter().map(|p| p.0.as_str()).collect();
    assert_eq!(keys, vec!["foo", "moodle", "otherkey"]);
}
