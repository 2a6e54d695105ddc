//! Configuration values derived from the environment's settings.
//!
//! Reading the environment is left to the caller; these functions take the
//! value of a variable (`None` when it is unset) and compute what the site uses.

use vstd::prelude::*;
use crate::number::{parse_u64, spec_parse_u64};
use crate::text::{
    all_ascii, ascii_lower_text, eq_ignore_ascii_case, lemma_ascii_lower_ignores_case, chars_of, has_prefix, has_suffix, is_ws, lemma_first_index_of, lemma_trim_end_ws_append, trim_end_ws, trim_start_ws, lemma_strip_suffix_all_done,
    lemma_strip_suffix_all_none, lemma_trim_ws_unchanged, split_once_at, split_once_char, string_of,
    strip_prefix_all, strip_prefix_repeated, strip_suffix_all, strip_suffix_repeated, trim_chars,
    trim_ws,
};

verus! {

// ---------------------------------------------------------------------------
// URLs
// ---------------------------------------------------------------------------

/// Browser origin of the identity service for CSP `connect-src`: its public
/// base URL without trailing slashes.
pub fn identity_public_origin(identity_base_url: &str) -> (r: String)
    ensures
        r@ == strip_suffix_all(identity_base_url@, "/"@),
{
    let slash = chars_of("/");
    string_of(&strip_suffix_repeated(&chars_of(identity_base_url), &slash))
}

/// Unicode lower case of a text, as `str::to_lowercase` computes it.
pub uninterp spec fn lowercase_of(s: Seq<char>) -> Seq<char>;

/// Trusted: calls `str::to_lowercase`, whose result depends on `s` alone
/// (the Unicode `Lowercase` mapping, including context-dependent rules), and
/// is named `lowercase_of`. On ASCII text the Unicode mapping maps `A`..`Z`
/// to `a`..`z` and keeps every other character, as `to_ascii_lowercase` does.
#[verifier::external_body]
fn str_to_lowercase(s: &str) -> (r: String)
    ensures
        r@ == lowercase_of(s@),
        all_ascii(s@) ==> r@ == ascii_lower_text(s@),
{
    s.to_lowercase()
}

/// The storefront URL of a product page, from the store's base URL and the
/// product's SKU code already in lower case: `{base}/products/{sku}`, with the
/// base's trailing slashes removed.
pub fn product_url_from_parts(store_base_url: &str, lowercase_sku: &str) -> (r: String)
    ensures
        r@ == strip_suffix_all(store_base_url@, "/"@) + "/products/"@ + lowercase_sku@,
{
    let slash = chars_of("/");
    let mut url = string_of(&strip_suffix_repeated(&chars_of(store_base_url), &slash));
    url.append("/products/");
    url.append(lowercase_sku);
    url
}

/// Storefront URL for a product detail page (`/products/{lowercase-sku}`).
pub fn store_product_url(store_base_url: &str, sku_code: &str) -> (r: String)
    ensures
        r@ == strip_suffix_all(store_base_url@, "/"@) + "/products/"@ + lowercase_of(sku_code@),
        all_ascii(sku_code@) ==> r@ == strip_suffix_all(store_base_url@, "/"@) + "/products/"@ + ascii_lower_text(
            sku_code@,
        ),
{
    let sku = str_to_lowercase(sku_code);
    product_url_from_parts(store_base_url, sku.as_str())
}

// ---------------------------------------------------------------------------
// GitHub repositories
// ---------------------------------------------------------------------------

/// `owner/name` of a GitHub repository, read from a setting: surrounding white
/// space and any leading `https://github.com/` are ignored, the text before the
/// first `/` is the owner, and the rest, without trailing `/` then without
/// trailing `.git`, is the name. Both must be non-empty.
pub open spec fn spec_parse_github_repo(value: Seq<char>) -> Option<(Seq<char>, Seq<char>)> {
    let v = strip_prefix_all(trim_ws(value), "https://github.com/"@);
    match split_once_at(v, '/') {
        Some((owner, rest)) => {
            let repo = strip_suffix_all(strip_suffix_all(rest, "/"@), ".git"@);
            if owner.len() == 0 || repo.len() == 0 {
                None
            } else {
                Some((owner, repo))
            }
        },
        None => None,
    }
}

/// Parses `owner/name` (or a GitHub URL) into owner and repository name.
pub fn parse_github_repo(value: &str) -> (r: Option<(String, String)>)
    ensures
        r matches Some((o, n)) ==> spec_parse_github_repo(value@) == Some((o@, n@)),
        r is None ==> spec_parse_github_repo(value@) is None,
{
    let trimmed = trim_chars(&chars_of(value));
    let v = strip_prefix_repeated(&trimmed, &chars_of("https://github.com/"));
    match split_once_char(&v, '/') {
        Some((owner, rest)) => {
            let repo = strip_suffix_repeated(&strip_suffix_repeated(&rest, &chars_of("/")), &chars_of(".git"));
            if owner.len() == 0 || repo.len() == 0 {
                None
            } else {
                Some((string_of(&owner), string_of(&repo)))
            }
        },
        None => None,
    }
}

/// A repository written `owner/name`, or as its GitHub URL, is read back as
/// that owner and name, when the owner has no `/` or `:`, neither begins or
/// ends with white space, and the name does not end with `/` or `.git`.
pub proof fn lemma_parse_github_repo_round_trip(owner: Seq<char>, name: Seq<char>)
    requires
        owner.len() > 0,
        name.len() > 0,
        !owner.contains('/'),
        !owner.contains(':'),
        !is_ws(owner[0]),
        !is_ws(name.last()),
        name.last() != '/',
        !has_suffix(name, ".git"@),
    ensures
        spec_parse_github_repo(owner + "/"@ + name) == Some((owner, name)),
        spec_parse_github_repo("https://github.com/"@ + owner + "/"@ + name) == Some((owner, name)),
{
    reveal_strlit("/");
    reveal_strlit("https://github.com/");
    let prefix = "https://github.com/"@;
    let s = owner + "/"@ + name;
    let u = prefix + s;
    let n = owner.len() as int;
    assert(s[0] == owner[0]);
    assert(s.last() == name.last());
    lemma_trim_ws_unchanged(s);
    assert(u[0] == 'h');
    assert(u.last() == name.last());
    lemma_trim_ws_unchanged(u);
    // `s` does not start with the URL prefix: the owner has no `/` nor `:`.
    if has_prefix(s, prefix) {
        if n >= 6 {
            assert(s[5] == owner[5]);
            assert(s.take(19)[5] == prefix[5]);
            assert(owner.contains(':'));
        } else {
            assert(s[n] == '/');
            assert(s.take(19)[n] == prefix[n]);
        }
    }
    assert(strip_prefix_all(s, prefix) == s);
    assert(has_prefix(u, prefix)) by {
        assert(u.take(19) =~= prefix);
    }
    assert(u.skip(19) =~= s);
    assert(strip_prefix_all(u, prefix) == strip_prefix_all(s, prefix));
    // The first `/` follows the owner.
    assert forall|k: int| 0 <= k < n implies s[k] != '/' by {
        assert(s[k] == owner[k]);
        if owner[k] == '/' {
            assert(owner.contains('/'));
        }
    }
    assert(s[n] == '/');
    lemma_first_index_of(s, '/', n);
    assert(s.take(n) =~= owner);
    assert(s.skip(n + 1) =~= name);
    // The name keeps its end.
    assert(!has_suffix(name, "/"@)) by {
        if has_suffix(name, "/"@) {
            assert(name.skip(name.len() - 1)[0] == name.last());
        }
    }
    lemma_strip_suffix_all_none(name, "/"@);
    lemma_strip_suffix_all_none(name, ".git"@);
    assert(prefix + owner + "/"@ + name =~= u);
}

/// The `https://github.com/` prefix does not change how a setting is read:
/// the URL of a repository names the same owner and name as the text after
/// the prefix (when that text does not begin with white space).
pub proof fn lemma_parse_github_repo_url_prefix(s: Seq<char>)
    requires
        s.len() == 0 || !is_ws(s[0]),
    ensures
        spec_parse_github_repo("https://github.com/"@ + s) == spec_parse_github_repo(s),
{
    reveal_strlit("https://github.com/");
    let prefix = "https://github.com/"@;
    let u = prefix + s;
    assert(u[0] == 'h');
    assert(trim_start_ws(u) == u);
    lemma_trim_end_ws_append(prefix, s);
    assert(trim_start_ws(s) == s);
    let t = trim_end_ws(s);
    assert(trim_ws(u) == prefix + t);
    assert(trim_ws(s) == t);
    assert(has_prefix(prefix + t, prefix)) by {
        assert((prefix + t).take(19) =~= prefix);
    }
    assert((prefix + t).skip(19) =~= t);
}

/// Reading `owner/rest`: the owner is the text before the first `/`, and the
/// name is the rest without its trailing `/` and then its trailing `.git`.
pub proof fn lemma_parse_owner_rest(owner: Seq<char>, rest: Seq<char>)
    requires
        owner.len() > 0,
        rest.len() > 0,
        !owner.contains('/'),
        !owner.contains(':'),
        !is_ws(owner[0]),
        !is_ws(rest.last()),
    ensures
        spec_parse_github_repo(owner + "/"@ + rest) == ({
            let name = strip_suffix_all(strip_suffix_all(rest, "/"@), ".git"@);
            if name.len() == 0 {
                None
            } else {
                Some((owner, name))
            }
        }),
{
    reveal_strlit("/");
    reveal_strlit("https://github.com/");
    let prefix = "https://github.com/"@;
    let s = owner + "/"@ + rest;
    let n = owner.len() as int;
    assert(s[0] == owner[0]);
    assert(s.last() == rest.last());
    lemma_trim_ws_unchanged(s);
    if has_prefix(s, prefix) {
        if n >= 6 {
            assert(s[5] == owner[5]);
            assert(s.take(19)[5] == prefix[5]);
            assert(owner.contains(':'));
        } else {
            assert(s[n] == '/');
            assert(s.take(19)[n] == prefix[n]);
        }
    }
    assert(strip_prefix_all(s, prefix) == s);
    assert forall|k: int| 0 <= k < n implies s[k] != '/' by {
        assert(s[k] == owner[k]);
        if owner[k] == '/' {
            assert(owner.contains('/'));
        }
    }
    assert(s[n] == '/');
    lemma_first_index_of(s, '/', n);
    assert(s.take(n) =~= owner);
    assert(s.skip(n + 1) =~= rest);
}

/// A repository name is read without its trailing `.git`, `/`, or `.git/`,
/// whether written `owner/name...` or as its GitHub URL (under the conditions
/// of the round trip).
pub proof fn lemma_parse_github_repo_drops_suffixes(owner: Seq<char>, name: Seq<char>)
    requires
        owner.len() > 0,
        name.len() > 0,
        !owner.contains('/'),
        !owner.contains(':'),
        !is_ws(owner[0]),
        !is_ws(name.last()),
        name.last() != '/',
        !has_suffix(name, ".git"@),
    ensures
        spec_parse_github_repo(owner + "/"@ + (name + ".git"@)) == Some((owner, name)),
        spec_parse_github_repo(owner + "/"@ + (name + "/"@)) == Some((owner, name)),
        spec_parse_github_repo(owner + "/"@ + (name + ".git/"@)) == Some((owner, name)),
        spec_parse_github_repo("https://github.com/"@ + (owner + "/"@ + (name + ".git"@))) == Some((owner, name)),
        spec_parse_github_repo("https://github.com/"@ + (owner + "/"@ + (name + "/"@))) == Some((owner, name)),
{
    reveal_strlit("/");
    reveal_strlit(".git");
    reveal_strlit(".git/");
    let git = ".git"@;
    let slash = "/"@;
    assert(!has_suffix(name, slash)) by {
        if has_suffix(name, slash) {
            assert(name.skip(name.len() - 1)[0] == name.last());
        }
    }
    // name + ".git"
    let a = name + git;
    assert(a.last() == 't');
    lemma_parse_owner_rest(owner, a);
    assert(!has_suffix(a, slash)) by {
        if has_suffix(a, slash) {
            assert(a.skip(a.len() - 1)[0] == a.last());
        }
    }
    assert(has_suffix(a, git)) by {
        assert(a.skip(a.len() - 4) =~= git);
    }
    assert(a.take(a.len() - 4) =~= name);
    lemma_strip_suffix_all_none(name, git);
    // name + "/"
    let b = name + slash;
    assert(b.last() == '/');
    lemma_parse_owner_rest(owner, b);
    assert(has_suffix(b, slash)) by {
        assert(b.skip(b.len() - 1) =~= slash);
    }
    assert(b.take(b.len() - 1) =~= name);
    lemma_strip_suffix_all_none(name, slash);
    // name + ".git/"
    let c = name + ".git/"@;
    assert(c.last() == '/');
    lemma_parse_owner_rest(owner, c);
    assert(has_suffix(c, slash)) by {
        assert(c.skip(c.len() - 1) =~= slash);
    }
    assert(c.take(c.len() - 1) =~= a);
    lemma_strip_suffix_all_none(a, slash);
    // The URL forms.
    let sa = owner + "/"@ + a;
    let sb = owner + "/"@ + b;
    assert(sa[0] == owner[0]);
    assert(sb[0] == owner[0]);
    lemma_parse_github_repo_url_prefix(sa);
    lemma_parse_github_repo_url_prefix(sb);
    assert(owner + "/"@ + (name + ".git"@) == sa);
    assert(owner + "/"@ + (name + "/"@) == sb);
}

/// The product URL of an ASCII SKU ignores the SKU's case: two ASCII SKUs
/// equal up to ASCII case give the same lower-cased path segment.
pub proof fn lemma_product_url_ignores_ascii_case(a: Seq<char>, b: Seq<char>)
    requires
        all_ascii(a),
        all_ascii(b),
        eq_ignore_ascii_case(a, b),
    ensures
        ascii_lower_text(a) == ascii_lower_text(b),
{
    lemma_ascii_lower_ignores_case(a, b);
}

/// The identity origin never ends with `/`, and taking the origin of an
/// origin gives it back.
pub proof fn lemma_identity_origin_no_trailing_slash(base: Seq<char>)
    ensures
        !has_suffix(strip_suffix_all(base, "/"@), "/"@),
        strip_suffix_all(strip_suffix_all(base, "/"@), "/"@) == strip_suffix_all(base, "/"@),
{
    reveal_strlit("/");
    lemma_strip_suffix_all_done(base, "/"@);
}

/// The repository settings always name a non-empty owner and repository.
pub proof fn lemma_repo_settings_non_empty(value: Option<Seq<char>>)
    ensures
        spec_repo_setting(value, "sigmatactical-org/info"@, "sigmatactical-org"@, "info"@).0.len() > 0,
        spec_repo_setting(value, "sigmatactical-org/info"@, "sigmatactical-org"@, "info"@).1.len() > 0,
        spec_repo_setting(
            value,
            "sigmatactical-org/racer"@,
            "sigmatactical-org"@,
            "racer"@,
        ).0.len() > 0,
        spec_repo_setting(
            value,
            "sigmatactical-org/racer"@,
            "sigmatactical-org"@,
            "racer"@,
        ).1.len() > 0,
{
    reveal_strlit("sigmatactical-org");
    reveal_strlit("info");
    reveal_strlit("racer");
}

/// The repository named by a setting, or the default `owner/name` when the
/// setting is unset or does not name a repository.
pub open spec fn spec_repo_setting(
    value: Option<Seq<char>>,
    default_value: Seq<char>,
    default_owner: Seq<char>,
    default_name: Seq<char>,
) -> (Seq<char>, Seq<char>) {
    let v = match value {
        Some(x) => x,
        None => default_value,
    };
    match spec_parse_github_repo(v) {
        Some(pair) => pair,
        None => (default_owner, default_name),
    }
}

fn repo_setting(value: Option<&str>, default_value: &str, default_owner: &str, default_name: &str) -> (r: (String, String))
    ensures
        (r.0@, r.1@) == spec_repo_setting(
            match value {
                Some(x) => Some(x@),
                None => None,
            },
            default_value@,
            default_owner@,
            default_name@,
        ),
{
    let v = match value {
        Some(x) => x,
        None => default_value,
    };
    match parse_github_repo(v) {
        Some(pair) => pair,
        None => (default_owner.to_owned(), default_name.to_owned()),
    }
}

/// GitHub repository (`owner`, `name`) for informational content markdown,
/// from the value of `INFO_CONTENT_REPO` (default `sigmatactical-org/info`).
pub fn content_repo(setting: Option<&str>) -> (r: (String, String))
    ensures
        (r.0@, r.1@) == spec_repo_setting(
            match setting {
                Some(x) => Some(x@),
                None => None,
            },
            "sigmatactical-org/info"@,
            "sigmatactical-org"@,
            "info"@,
        ),
{
    repo_setting(setting, "sigmatactical-org/info", "sigmatactical-org", "info")
}

/// GitHub repository (`owner`, `name`) for SIGMA-RACER build specs markdown,
/// from the value of `INFO_RACER_SPECS_REPO` (default `sigmatactical-org/racer`).
pub fn racer_specs_repo(setting: Option<&str>) -> (r: (String, String))
    ensures
        (r.0@, r.1@) == spec_repo_setting(
            match setting {
                Some(x) => Some(x@),
                None => None,
            },
            "sigmatactical-org/racer"@,
            "sigmatactical-org"@,
            "racer"@,
        ),
{
    repo_setting(setting, "sigmatactical-org/racer", "sigmatactical-org", "racer")
}

// ---------------------------------------------------------------------------
// Text and number settings
// ---------------------------------------------------------------------------

/// A setting's value when it is set and not blank, else the default.
pub open spec fn spec_non_blank_or(value: Option<Seq<char>>, default_value: Seq<char>) -> Seq<char> {
    match value {
        Some(x) => if trim_ws(x).len() > 0 {
            x
        } else {
            default_value
        },
        None => default_value,
    }
}

fn non_blank_or(value: Option<&str>, default_value: &str) -> (r: String)
    ensures
        r@ == spec_non_blank_or(
            match value {
                Some(x) => Some(x@),
                None => None,
            },
            default_value@,
        ),
{
    match value {
        Some(x) => {
            if trim_chars(&chars_of(x)).len() > 0 {
                x.to_owned()
            } else {
                default_value.to_owned()
            }
        },
        None => default_value.to_owned(),
    }
}

/// Path within the content repo holding the `.md` documents, from the value of
/// `INFO_CONTENT_PATH` (default `content`).
pub fn content_repo_path(setting: Option<&str>) -> (r: String)
    ensures
        r@ == spec_non_blank_or(
            match setting {
                Some(x) => Some(x@),
                None => None,
            },
            "content"@,
        ),
{
    non_blank_or(setting, "content")
}

/// Git ref for informational content, from the value of `INFO_CONTENT_REF`
/// (default `main`).
pub fn content_ref(setting: Option<&str>) -> (r: String)
    ensures
        r@ == spec_non_blank_or(
            match setting {
                Some(x) => Some(x@),
                None => None,
            },
            "main"@,
        ),
{
    non_blank_or(setting, "main")
}

/// Git ref for racer specs, from the value of `INFO_RACER_SPECS_REF`
/// (default `main`).
pub fn racer_specs_ref(setting: Option<&str>) -> (r: String)
    ensures
        r@ == spec_non_blank_or(
            match setting {
                Some(x) => Some(x@),
                None => None,
            },
            "main"@,
        ),
{
    non_blank_or(setting, "main")
}

/// Seconds of a cache TTL setting: its value when it parses as a `u64`, else
/// the default.
pub open spec fn spec_ttl_secs(value: Option<Seq<char>>, default_secs: u64) -> u64 {
    match value {
        Some(x) => match spec_parse_u64(x) {
            Some(v) => v,
            None => default_secs,
        },
        None => default_secs,
    }
}

fn ttl_secs(value: Option<&str>, default_secs: u64) -> (r: u64)
    ensures
        r == spec_ttl_secs(
            match value {
                Some(x) => Some(x@),
                None => None,
            },
            default_secs,
        ),
{
    match value {
        Some(x) => match parse_u64(&chars_of(x)) {
            Some(v) => v,
            None => default_secs,
        },
        None => default_secs,
    }
}

/// Default TTL of the content cache: one hour.
pub const CONTENT_CACHE_TTL_DEFAULT_SECS: u64 = 3600;

/// Default TTL of the racer specs cache: 30 minutes.
pub const RACER_SPECS_CACHE_TTL_DEFAULT_SECS: u64 = 1800;

/// In-memory cache TTL in seconds for fetched content documents, from the
/// value of `INFO_CONTENT_CACHE_TTL_SECS` (default one hour).
pub fn content_cache_ttl(setting: Option<&str>) -> (r: u64)
    ensures
        r == spec_ttl_secs(
            match setting {
                Some(x) => Some(x@),
                None => None,
            },
            CONTENT_CACHE_TTL_DEFAULT_SECS,
        ),
{
    ttl_secs(setting, CONTENT_CACHE_TTL_DEFAULT_SECS)
}

/// In-memory cache TTL in seconds for fetched racer specs, from the value of
/// `INFO_RACER_SPECS_CACHE_TTL_SECS` (default 30 minutes).
pub fn racer_specs_cache_ttl(setting: Option<&str>) -> (r: u64)
    ensures
        r == spec_ttl_secs(
            match setting {
                Some(x) => Some(x@),
                None => None,
            },
            RACER_SPECS_CACHE_TTL_DEFAULT_SECS,
        ),
{
    ttl_secs(setting, RACER_SPECS_CACHE_TTL_DEFAULT_SECS)
}

} // verus!
