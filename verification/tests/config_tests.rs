use sigma_info::config::{
    content_cache_ttl, content_ref, content_repo, content_repo_path, identity_public_origin,
    parse_github_repo, product_url_from_parts, racer_specs_cache_ttl, racer_specs_ref,
    racer_specs_repo, store_product_url,
};

fn pair(owner: &str, name: &str) -> Option<(String, String)> {
    Some((owner.to_string(), name.to_string()))
}

#[test]
fn identity_origin_drops_trailing_slashes() {
    assert_eq!(identity_public_origin("http://127.0.0.1:3000/"), "http://127.0.0.1:3000");
    assert_eq!(identity_public_origin("https://id.example//"), "https://id.example");
    assert_eq!(identity_public_origin("https://id.example"), "https://id.example");
    assert_eq!(identity_public_origin("/"), "");
}

#[test]
fn store_product_url_lowercases_the_sku() {
    assert_eq!(
        store_product_url("http://127.0.0.1:8082/", "SIGMA-RACER"),
        "http://127.0.0.1:8082/products/sigma-racer"
    );
    assert_eq!(
        store_product_url("https://store.example", "sigma-racer"),
        "https://store.example/products/sigma-racer"
    );
    assert_eq!(product_url_from_parts("https://s.example///", "x"), "https://s.example/products/x");
}

#[test]
fn parses_github_repositories() {
    assert_eq!(parse_github_repo("sigmatactical-org/info"), pair("sigmatactical-org", "info"));
    assert_eq!(parse_github_repo("  owner/repo.git/ \n"), pair("owner", "repo"));
    assert_eq!(parse_github_repo("https://github.com/owner/repo"), pair("owner", "repo"));
    assert_eq!(parse_github_repo("https://github.com/https://github.com/o/r"), pair("o", "r"));
    assert_eq!(parse_github_repo("owner/sub/dir"), pair("owner", "sub/dir"));
    assert_eq!(parse_github_repo("owner/repo.git.git"), pair("owner", "repo"));
    assert_eq!(parse_github_repo("\u{3000}owner/repo\u{a0}"), pair("owner", "repo"));
    assert_eq!(parse_github_repo("owner"), None);
    assert_eq!(parse_github_repo("/repo"), None);
    assert_eq!(parse_github_repo("owner/"), None);
    assert_eq!(parse_github_repo("owner/.git"), None);
    assert_eq!(parse_github_repo(""), None);
}

#[test]
fn repo_settings_fall_back_to_defaults() {
    assert_eq!(content_repo(None), ("sigmatactical-org".to_string(), "info".to_string()));
    assert_eq!(content_repo(Some("bad")), ("sigmatactical-org".to_string(), "info".to_string()));
    assert_eq!(content_repo(Some("me/docs")), ("me".to_string(), "docs".to_string()));
    assert_eq!(
        racer_specs_repo(None),
        ("sigmatactical-org".to_string(), "racer".to_string())
    );
    assert_eq!(racer_specs_repo(Some("x/y.git")), ("x".to_string(), "y".to_string()));
}

#[test]
fn text_settings_ignore_blank_values() {
    assert_eq!(content_repo_path(None), "content");
    assert_eq!(content_repo_path(Some("   ")), "content");
    assert_eq!(content_repo_path(Some(" docs ")), " docs ");
    assert_eq!(content_ref(Some("")), "main");
    assert_eq!(content_ref(Some("v1")), "v1");
    assert_eq!(racer_specs_ref(None), "main");
    assert_eq!(racer_specs_ref(Some("release")), "release");
}

#[test]
fn ttl_settings_parse_seconds() {
    assert_eq!(content_cache_ttl(None), 3600);
    assert_eq!(content_cache_ttl(Some("60")), 60);
    assert_eq!(content_cache_ttl(Some("+60")), 60);
    assert_eq!(content_cache_ttl(Some("-60")), 3600);
    assert_eq!(content_cache_ttl(Some("1m")), 3600);
    assert_eq!(content_cache_ttl(Some("18446744073709551615")), u64::MAX);
    assert_eq!(content_cache_ttl(Some("18446744073709551616")), 3600);
    assert_eq!(racer_specs_cache_ttl(None), 1800);
    assert_eq!(racer_specs_cache_ttl(Some("0")), 0);
    assert_eq!(racer_specs_cache_ttl(Some("")), 1800);
}

#[test]
fn product_url_ignores_ascii_case_of_the_sku() {
    let base = "https://store.example/";
    assert_eq!(store_product_url(base, "Sigma-Racer"), store_product_url(base, "sIGMA-rACER"));
    assert_eq!(store_product_url(base, "AB-12_z"), "https://store.example/products/ab-12_z");
}
