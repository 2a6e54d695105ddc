use sigma_info::content::{doc_from_front_matter, doc_path, index_links, get, merge_builtin_docs, sorted_entries, DocEntry};

fn doc(slug: &str, title: &str, order: i32, body: &str) -> DocEntry {
    DocEntry {
        slug: slug.to_string(),
        title: title.to_string(),
        order,
        body_html: body.to_string(),
    }
}

#[test]
fn falls_back_to_slug_title_and_default_order_without_front_matter() {
    let doc = doc_from_front_matter("getting-started.md", None, None, String::new());
    assert_eq!(doc.title, "getting started");
    assert_eq!(doc.order, 100);
}

#[test]
fn sorted_entries_orders_by_order_then_title() {
    let docs = [
        doc_from_front_matter("b.md", Some("Bravo"), Some("2"), "<p>b</p>".to_string()),
        doc_from_front_matter("a.md", Some("Alpha"), Some("2"), "<p>a</p>".to_string()),
        doc_from_front_matter("z.md", Some("Zulu"), Some("1"), "<p>z</p>".to_string()),
    ];
    let sorted: Vec<&str> = sorted_entries(&docs)
        .into_iter()
        .map(|d| d.slug.as_str())
        .collect();
    assert_eq!(sorted, vec!["z", "a", "b"]);
}

#[test]
fn front_matter_title_and_order_are_used() {
    let d = doc_from_front_matter("welcome.md", Some("Welcome"), Some("1"), "<p>Hello.</p>".to_string());
    assert_eq!(d.slug, "welcome");
    assert_eq!(d.title, "Welcome");
    assert_eq!(d.order, 1);
    assert_eq!(d.body_html, "<p>Hello.</p>");
}

#[test]
fn unparsable_order_falls_back_to_default() {
    assert_eq!(doc_from_front_matter("x.md", None, Some("first"), String::new()).order, 100);
    assert_eq!(doc_from_front_matter("x.md", None, Some(" 3"), String::new()).order, 100);
    assert_eq!(doc_from_front_matter("x.md", None, Some(""), String::new()).order, 100);
    assert_eq!(doc_from_front_matter("x.md", None, Some("-"), String::new()).order, 100);
    assert_eq!(doc_from_front_matter("x.md", None, Some("2147483648"), String::new()).order, 100);
    assert_eq!(doc_from_front_matter("x.md", None, Some("-2147483648"), String::new()).order, i32::MIN);
    assert_eq!(doc_from_front_matter("x.md", None, Some("2147483647"), String::new()).order, i32::MAX);
    assert_eq!(doc_from_front_matter("x.md", None, Some("+7"), String::new()).order, 7);
    assert_eq!(doc_from_front_matter("x.md", None, Some("-12"), String::new()).order, -12);
    assert_eq!(doc_from_front_matter("x.md", None, Some("007"), String::new()).order, 7);
    assert_eq!(doc_from_front_matter("x.md", None, Some("99999999999999999999"), String::new()).order, 100);
}

#[test]
fn slug_drops_every_trailing_md() {
    assert_eq!(doc_from_front_matter("notes.md.md", None, None, String::new()).slug, "notes");
    assert_eq!(doc_from_front_matter("notes", None, None, String::new()).slug, "notes");
    assert_eq!(doc_from_front_matter("a-b-c.md", None, None, String::new()).title, "a b c");
}

#[test]
fn get_finds_first_document_with_slug() {
    let docs = vec![doc("a", "First A", 1, ""), doc("b", "B", 2, ""), doc("a", "Second A", 3, "")];
    assert_eq!(get(&docs, "a").map(|d| d.title.as_str()), Some("First A"));
    assert_eq!(get(&docs, "b").map(|d| d.title.as_str()), Some("B"));
    assert!(get(&docs, "no-such-page").is_none());
    assert!(get(&[], "a").is_none());
}

#[test]
fn sorted_entries_is_stable_for_equal_keys() {
    let docs = vec![doc("x", "Same", 5, "1"), doc("y", "Same", 5, "2"), doc("w", "Other", 0, "3")];
    let sorted: Vec<&str> = sorted_entries(&docs).into_iter().map(|d| d.slug.as_str()).collect();
    assert_eq!(sorted, vec!["w", "x", "y"]);
}

#[test]
fn sorted_entries_orders_negative_orders_first() {
    let docs = vec![doc("p", "P", 100, ""), doc("n", "N", -1, ""), doc("m", "M", 100, "")];
    let sorted: Vec<&str> = sorted_entries(&docs).into_iter().map(|d| d.slug.as_str()).collect();
    assert_eq!(sorted, vec!["n", "m", "p"]);
}

#[test]
fn merge_replaces_or_appends_builtins() {
    let mut docs = vec![doc("welcome", "Welcome", 1, "w"), doc("terms", "Old terms", 5, "old")];
    let builtins = vec![doc("terms", "Terms and Conditions", 90, "Deposit"), doc("privacy", "Privacy", 91, "p")];
    merge_builtin_docs(&mut docs, &builtins);
    assert_eq!(docs.len(), 3);
    assert_eq!(docs[0].slug, "welcome");
    assert_eq!(docs[1].title, "Terms and Conditions");
    assert_eq!(docs[2].slug, "privacy");
    let terms = get(&docs, "terms").expect("terms");
    assert!(terms.body_html.contains("Deposit"));
}

#[test]
fn merging_builtins_twice_changes_nothing() {
    let mut docs = vec![doc("welcome", "Welcome", 1, "w")];
    let builtins = vec![doc("terms", "Terms and Conditions", 90, "Deposit")];
    merge_builtin_docs(&mut docs, &builtins);
    let once: Vec<(String, String)> = docs.iter().map(|d| (d.slug.clone(), d.title.clone())).collect();
    merge_builtin_docs(&mut docs, &builtins);
    let twice: Vec<(String, String)> = docs.iter().map(|d| (d.slug.clone(), d.title.clone())).collect();
    assert_eq!(once, twice);
}

#[test]
fn merge_into_empty_list_yields_builtins() {
    let mut docs = Vec::new();
    merge_builtin_docs(&mut docs, &[doc("terms", "Terms and Conditions", 90, "Deposit")]);
    let terms = docs.iter().find(|d| d.slug == "terms").expect("terms");
    assert_eq!(terms.title, "Terms and Conditions");
}

#[test]
fn duplicate_equals_original() {
    let d = doc("s", "T", 3, "b");
    let e = d.duplicate();
    assert_eq!((e.slug, e.title, e.order, e.body_html), (d.slug, d.title, d.order, d.body_html));
}

#[test]
fn documents_are_served_under_doc() {
    assert_eq!(doc_path("welcome"), "/doc/welcome");
    assert_eq!(doc_path(""), "/doc/");
}

#[test]
fn builtin_terms_has_title() {
    let builtins = vec![doc("terms", "Terms and Conditions", 100, "<p>Deposit terms.</p>")];
    let mut docs = Vec::new();
    merge_builtin_docs(&mut docs, &builtins);
    let terms = docs.iter().find(|d| d.slug == "terms").expect("terms");
    assert_eq!(terms.title, "Terms and Conditions");
    assert!(terms.body_html.contains("Deposit"));
}

#[test]
fn index_links_list_every_document_in_index_order() {
    let docs = vec![doc("b", "Bravo", 2, ""), doc("a", "Alpha", 2, ""), doc("z", "Zulu", 1, "")];
    let links = index_links(&docs);
    assert_eq!(
        links,
        vec![
            ("/doc/z".to_string(), "Zulu".to_string()),
            ("/doc/a".to_string(), "Alpha".to_string()),
            ("/doc/b".to_string(), "Bravo".to_string()),
        ]
    );
    assert!(index_links(&[]).is_empty());
}
