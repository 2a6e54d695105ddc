//! Informational documents: lookup by slug, index ordering, built-in pages,
//! and the document fields taken from a Markdown file's front matter.

use vstd::prelude::*;
use crate::number::{parse_i32, spec_parse_i32};
use crate::order::{is_stable_order, key_lt, lemma_key_trichotomy, stable_order, text_views};
use crate::text::{lemma_seq_lt_first_difference, lemma_seq_lt_proper_prefix, chars_equal, chars_of, replace_char, replace_chars, string_of, strip_suffix_all, strip_suffix_repeated};

verus! {

/// One informational document: slug, title, sort order, and rendered body.
#[derive(Debug, Clone)]
pub struct DocEntry {
    pub slug: String,
    pub title: String,
    pub order: i32,
    pub body_html: String,
}

impl DocEntry {
    /// A copy of this entry, equal to it field by field.
    pub fn duplicate(&self) -> (r: DocEntry)
        ensures
            r == *self,
    {
        DocEntry {
            slug: self.slug.clone(),
            title: self.title.clone(),
            order: self.order,
            body_html: self.body_html.clone(),
        }
    }
}

/// Sort order given to a document without an `order` in its front matter.
pub const DEFAULT_ORDER: i32 = 100;

// ---------------------------------------------------------------------------
// Lookup by slug
// ---------------------------------------------------------------------------

/// Index of the first document of `docs` whose slug is `slug`.
pub open spec fn index_of_slug(docs: Seq<DocEntry>, slug: Seq<char>) -> Option<int>
    decreases docs.len(),
{
    if docs.len() == 0 {
        None
    } else if docs[0].slug@ == slug {
        Some(0)
    } else {
        match index_of_slug(docs.drop_first(), slug) {
            Some(i) => Some(i + 1),
            None => None,
        }
    }
}

/// `i` is the first position of `docs` holding a document with slug `slug`.
pub open spec fn is_first_with_slug(docs: Seq<DocEntry>, slug: Seq<char>, i: int) -> bool {
    &&& 0 <= i < docs.len()
    &&& docs[i].slug@ == slug
    &&& forall|j: int| 0 <= j < i ==> (#[trigger] docs[j]).slug@ != slug
}

/// `index_of_slug` finds the first document with the slug, and only fails
/// when no document has it.
pub proof fn lemma_index_of_slug(docs: Seq<DocEntry>, slug: Seq<char>)
    ensures
        index_of_slug(docs, slug) matches Some(i) ==> is_first_with_slug(docs, slug, i),
        index_of_slug(docs, slug) is None ==> forall|j: int| 0 <= j < docs.len() ==> (#[trigger] docs[j]).slug@ != slug,
    decreases docs.len(),
{
    if docs.len() > 0 {
        lemma_index_of_slug(docs.drop_first(), slug);
        if docs[0].slug@ != slug {
            assert forall|j: int| 1 <= j < docs.len() implies (#[trigger] docs[j]).slug@ == docs.drop_first()[j - 1].slug@ by {}
        }
    }
}

/// The first position holding a slug is what `index_of_slug` gives.
pub proof fn lemma_first_with_slug_unique(docs: Seq<DocEntry>, slug: Seq<char>, i: int)
    requires
        is_first_with_slug(docs, slug, i),
    ensures
        index_of_slug(docs, slug) == Some(i),
{
    lemma_index_of_slug(docs, slug);
    match index_of_slug(docs, slug) {
        Some(k) => {
            if k < i {
                assert(docs[k].slug@ != slug);
            } else if k > i {
                assert(docs[i].slug@ != slug);
            }
        },
        None => {
            assert(docs[i].slug@ != slug);
        },
    }
}

/// Position of the first document of `docs` whose slug has the characters `slug`.
fn position_of_slug(docs: &[DocEntry], slug: &Vec<char>) -> (r: Option<usize>)
    ensures
        r matches Some(i) ==> i < docs@.len() && index_of_slug(docs@, slug@) == Some(i as int),
        r is None ==> index_of_slug(docs@, slug@) is None,
{
    let mut i: usize = 0;
    while i < docs.len()
        invariant
            i <= docs.len(),
            forall|j: int| 0 <= j < i ==> (#[trigger] docs@[j]).slug@ != slug@,
        decreases docs.len() - i,
    {
        let candidate = chars_of(docs[i].slug.as_str());
        if chars_equal(&candidate, slug) {
            proof {
                lemma_first_with_slug_unique(docs@, slug@, i as int);
            }
            return Some(i);
        }
        i = i + 1;
    }
    proof {
        lemma_index_of_slug(docs@, slug@);
        if index_of_slug(docs@, slug@) is Some {
            let k = index_of_slug(docs@, slug@)->0;
            assert(docs@[k].slug@ == slug@);
        }
    }
    None
}

/// Look up a document of `docs` by slug: the first document with that slug.
pub fn get<'a>(docs: &'a [DocEntry], slug: &str) -> (r: Option<&'a DocEntry>)
    ensures
        r matches Some(d) ==> index_of_slug(docs@, slug@) matches Some(i) && *d == docs@[i],
        r is None <==> index_of_slug(docs@, slug@) is None,
{
    let wanted = chars_of(slug);
    match position_of_slug(docs, &wanted) {
        Some(i) => Some(&docs[i]),
        None => None,
    }
}

/// Path at which a document is served: `/doc/{slug}`.
pub fn doc_path(slug: &str) -> (r: String)
    ensures
        r@ == "/doc/"@ + slug@,
{
    let mut path = "/doc/".to_owned();
    path.append(slug);
    path
}

// ---------------------------------------------------------------------------
// Index order
// ---------------------------------------------------------------------------

/// The sort keys' ranks of documents: their `order`.
pub open spec fn order_ranks(docs: Seq<DocEntry>) -> Seq<i128> {
    docs.map_values(|d: DocEntry| d.order as i128)
}

/// The sort keys' texts of documents: their titles.
pub open spec fn title_texts(docs: Seq<DocEntry>) -> Seq<Seq<char>> {
    docs.map_values(|d: DocEntry| d.title@)
}

/// `sorted` is `docs` rearranged by `order`, then title, keeping the original
/// relative order of documents with equal order and title.
pub open spec fn is_index_order(docs: Seq<DocEntry>, sorted: Seq<DocEntry>) -> bool {
    exists|perm: Seq<usize>|
        {
            &&& is_stable_order(order_ranks(docs), title_texts(docs), perm)
            &&& sorted.len() == perm.len()
            &&& forall|k: int| 0 <= k < perm.len() ==> #[trigger] sorted[k] == docs[perm[k] as int]
        }
}

/// The documents as references, in index order.
pub open spec fn deref_all(entries: Seq<&DocEntry>) -> Seq<DocEntry> {
    entries.map_values(|e: &DocEntry| *e)
}

/// Entries of `docs` sorted by `order` then title (a stable sort).
pub fn sorted_entries(docs: &[DocEntry]) -> (r: Vec<&DocEntry>)
    ensures
        is_index_order(docs@, deref_all(r@)),
{
    let mut ranks: Vec<i128> = Vec::new();
    let mut texts: Vec<Vec<char>> = Vec::new();
    let mut i: usize = 0;
    while i < docs.len()
        invariant
            i <= docs.len(),
            ranks@ == order_ranks(docs@).take(i as int),
            text_views(texts@) == title_texts(docs@).take(i as int),
        decreases docs.len() - i,
    {
        ranks.push(docs[i].order as i128);
        let ghost old_texts = texts@;
        let title = chars_of(docs[i].title.as_str());
        texts.push(title);
        assert(text_views(texts@) =~= text_views(old_texts).push(title@));
        assert(ranks@ =~= order_ranks(docs@).take(i + 1));
        assert(text_views(texts@) =~= title_texts(docs@).take(i + 1));
        i = i + 1;
    }
    assert(ranks@ =~= order_ranks(docs@));
    assert(text_views(texts@) =~= title_texts(docs@));
    let perm = stable_order(&ranks, &texts);
    let mut r: Vec<&DocEntry> = Vec::new();
    let mut k: usize = 0;
    while k < perm.len()
        invariant
            k <= perm.len() == docs.len(),
            is_stable_order(order_ranks(docs@), title_texts(docs@), perm@),
            r.len() == k,
            forall|m: int| 0 <= m < k ==> *(#[trigger] r@[m]) == docs@[perm@[m] as int],
        decreases perm.len() - k,
    {
        r.push(&docs[perm[k]]);
        k = k + 1;
    }
    assert(forall|m: int| 0 <= m < perm.len() ==> #[trigger] deref_all(r@)[m] == docs@[perm@[m] as int]);
    r
}

/// In index order, no document has a smaller `(order, title)` key than an
/// earlier one.
pub proof fn lemma_index_order_sorted(docs: Seq<DocEntry>, sorted: Seq<DocEntry>)
    requires
        is_index_order(docs, sorted),
    ensures
        sorted.len() == docs.len(),
        forall|a: int, b: int|
            0 <= a < b < sorted.len() ==> !key_lt(
                (#[trigger] sorted[b]).order as int,
                sorted[b].title@,
                (#[trigger] sorted[a]).order as int,
                sorted[a].title@,
            ),
{
    let perm = choose|perm: Seq<usize>|
        {
            &&& is_stable_order(order_ranks(docs), title_texts(docs), perm)
            &&& sorted.len() == perm.len()
            &&& forall|k: int| 0 <= k < perm.len() ==> #[trigger] sorted[k] == docs[perm[k] as int]
        };
    assert forall|a: int, b: int| 0 <= a < b < sorted.len() implies !key_lt(
        (#[trigger] sorted[b]).order as int,
        sorted[b].title@,
        (#[trigger] sorted[a]).order as int,
        sorted[a].title@,
    ) by {
        let i = perm[a] as int;
        let j = perm[b] as int;
        assert(sorted[a] == docs[i]);
        assert(sorted[b] == docs[j]);
        assert(order_ranks(docs)[i] as int == docs[i].order as int);
        assert(order_ranks(docs)[j] as int == docs[j].order as int);
        assert(title_texts(docs)[i] == docs[i].title@);
        assert(title_texts(docs)[j] == docs[j].title@);
        lemma_key_trichotomy(docs[i].order as int, docs[i].title@, docs[j].order as int, docs[j].title@);
    }
}

/// The index's links to every document, in index order: the document's path
/// (`/doc/{slug}`) and title.
pub fn index_links(docs: &[DocEntry]) -> (r: Vec<(String, String)>)
    ensures
        exists|sorted: Seq<DocEntry>|
            {
                &&& is_index_order(docs@, sorted)
                &&& r@.len() == sorted.len()
                &&& forall|k: int|
                    0 <= k < sorted.len() ==> (#[trigger] r@[k]).0@ == "/doc/"@ + sorted[k].slug@ && r@[k].1@
                        == sorted[k].title@
            },
{
    let entries = sorted_entries(docs);
    let ghost sorted = deref_all(entries@);
    let mut r: Vec<(String, String)> = Vec::new();
    let mut k: usize = 0;
    while k < entries.len()
        invariant
            k <= entries.len(),
            sorted == deref_all(entries@),
            r@.len() == k,
            forall|m: int|
                0 <= m < k ==> (#[trigger] r@[m]).0@ == "/doc/"@ + sorted[m].slug@ && r@[m].1@ == sorted[m].title@,
        decreases entries.len() - k,
    {
        let d = entries[k];
        r.push((doc_path(d.slug.as_str()), d.title.clone()));
        k = k + 1;
    }
    assert(is_index_order(docs@, sorted));
    r
}

/// The index is ordered by `order`, lowest first; documents with equal
/// `order` are ordered by title in String order: where two titles first
/// differ, the one with the smaller character comes first, and a title that is
/// a proper prefix of another comes before it.
pub proof fn lemma_index_order_by_title(docs: Seq<DocEntry>, sorted: Seq<DocEntry>, a: int, b: int, k: int)
    requires
        is_index_order(docs, sorted),
        0 <= a < b < sorted.len(),
    ensures
        sorted[a].order <= sorted[b].order,
        sorted[a].order == sorted[b].order && 0 <= k < sorted[a].title@.len() && k < sorted[b].title@.len()
            && sorted[a].title@.take(k) == sorted[b].title@.take(k) && sorted[a].title@[k] != sorted[b].title@[k]
            ==> sorted[a].title@[k] < sorted[b].title@[k],
        sorted[a].order == sorted[b].order && sorted[b].title@.len() < sorted[a].title@.len()
            ==> sorted[a].title@.take(sorted[b].title@.len() as int) != sorted[b].title@,
{
    lemma_index_order_sorted(docs, sorted);
    let ta = sorted[a].title@;
    let tb = sorted[b].title@;
    assert(!key_lt(sorted[b].order as int, tb, sorted[a].order as int, ta));
    if sorted[a].order == sorted[b].order {
        if 0 <= k < ta.len() && k < tb.len() && ta.take(k) == tb.take(k) && ta[k] != tb[k] {
            lemma_seq_lt_first_difference(tb, ta, k);
        }
        if tb.len() < ta.len() && ta.take(tb.len() as int) == tb {
            lemma_seq_lt_proper_prefix(tb, ta);
        }
    }
}

// ---------------------------------------------------------------------------
// Built-in documents
// ---------------------------------------------------------------------------

/// Merging one built-in document: it replaces the first document with its
/// slug, or is appended when no document has that slug.
pub open spec fn merge_one(docs: Seq<DocEntry>, builtin: DocEntry) -> Seq<DocEntry> {
    match index_of_slug(docs, builtin.slug@) {
        Some(i) => docs.update(i, builtin),
        None => docs.push(builtin),
    }
}

/// Merging the built-in documents one after the other, in order.
pub open spec fn merge_all(docs: Seq<DocEntry>, builtins: Seq<DocEntry>) -> Seq<DocEntry>
    decreases builtins.len(),
{
    if builtins.len() == 0 {
        docs
    } else {
        merge_one(merge_all(docs, builtins.drop_last()), builtins.last())
    }
}

/// Merges the built-in documents into `docs`: each replaces the first document
/// with its slug, or is appended when there is none.
pub fn merge_builtin_docs(docs: &mut Vec<DocEntry>, builtins: &[DocEntry])
    ensures
        final(docs)@ == merge_all(old(docs)@, builtins@),
{
    let ghost start = docs@;
    let mut k: usize = 0;
    while k < builtins.len()
        invariant
            k <= builtins.len(),
            docs@ == merge_all(start, builtins@.take(k as int)),
        decreases builtins.len() - k,
    {
        let builtin = &builtins[k];
        let slug = chars_of(builtin.slug.as_str());
        let ghost before = docs@;
        match position_of_slug(docs.as_slice(), &slug) {
            Some(i) => {
                docs.set(i, builtin.duplicate());
            },
            None => {
                docs.push(builtin.duplicate());
            },
        }
        proof {
            let b = builtins@.take(k + 1);
            assert(b.drop_last() =~= builtins@.take(k as int));
            assert(docs@ =~= merge_one(before, builtins@[k as int]));
        }
        k = k + 1;
    }
    assert(builtins@.take(builtins.len() as int) =~= builtins@);
}

/// No two built-in documents share a slug.
pub open spec fn distinct_slugs(builtins: Seq<DocEntry>) -> bool {
    forall|i: int, j: int| 0 <= i < j < builtins.len() ==> (#[trigger] builtins[i]).slug@ != (#[trigger] builtins[j]).slug@
}

/// Sequences with the same slugs at the same positions find the same first
/// position for every slug.
proof fn lemma_index_of_slug_same_slugs(a: Seq<DocEntry>, b: Seq<DocEntry>, slug: Seq<char>)
    requires
        a.len() == b.len(),
        forall|k: int| 0 <= k < a.len() ==> (#[trigger] a[k]).slug@ == b[k].slug@,
    ensures
        index_of_slug(a, slug) == index_of_slug(b, slug),
    decreases a.len(),
{
    if a.len() > 0 {
        assert forall|k: int| 0 <= k < a.drop_first().len() implies (#[trigger] a.drop_first()[k]).slug@ == b.drop_first()[k].slug@ by {
            assert(a.drop_first()[k] == a[k + 1]);
            assert(b.drop_first()[k] == b[k + 1]);
        }
        lemma_index_of_slug_same_slugs(a.drop_first(), b.drop_first(), slug);
    }
}

/// Where an appended document is found by slug.
proof fn lemma_index_of_slug_push(docs: Seq<DocEntry>, d: DocEntry, slug: Seq<char>)
    ensures
        index_of_slug(docs.push(d), slug) == match index_of_slug(docs, slug) {
            Some(i) => Some(i),
            None => if d.slug@ == slug {
                Some(docs.len() as int)
            } else {
                None
            },
        },
{
    let n = docs.push(d);
    lemma_index_of_slug(docs, slug);
    lemma_index_of_slug(n, slug);
    match index_of_slug(docs, slug) {
        Some(i) => {
            assert forall|j: int| 0 <= j < i implies (#[trigger] n[j]).slug@ != slug by {
                assert(n[j] == docs[j]);
            }
            lemma_first_with_slug_unique(n, slug, i);
        },
        None => {
            if d.slug@ == slug {
                assert forall|j: int| 0 <= j < docs.len() implies (#[trigger] n[j]).slug@ != slug by {
                    assert(n[j] == docs[j]);
                }
                lemma_first_with_slug_unique(n, slug, docs.len() as int);
            } else if index_of_slug(n, slug) is Some {
                let k = index_of_slug(n, slug)->0;
                if k < docs.len() {
                    assert(n[k] == docs[k]);
                }
            }
        },
    }
}

/// Merging one built-in document leaves every other slug where it was.
proof fn lemma_merge_one_other_slug(docs: Seq<DocEntry>, b: DocEntry, slug: Seq<char>)
    requires
        slug != b.slug@,
    ensures
        index_of_slug(merge_one(docs, b), slug) == index_of_slug(docs, slug),
        index_of_slug(docs, slug) matches Some(i) ==> merge_one(docs, b)[i] == docs[i],
{
    lemma_index_of_slug(docs, b.slug@);
    lemma_index_of_slug(docs, slug);
    match index_of_slug(docs, b.slug@) {
        Some(i) => {
            let n = docs.update(i, b);
            assert forall|k: int| 0 <= k < n.len() implies (#[trigger] n[k]).slug@ == docs[k].slug@ by {}
            lemma_index_of_slug_same_slugs(n, docs, slug);
        },
        None => {
            lemma_index_of_slug_push(docs, b, slug);
        },
    }
}

/// Merging one built-in document makes it the first document with its slug.
proof fn lemma_merge_one_own_slug(docs: Seq<DocEntry>, b: DocEntry)
    ensures
        index_of_slug(merge_one(docs, b), b.slug@) matches Some(i) && merge_one(docs, b)[i] == b,
{
    lemma_index_of_slug(docs, b.slug@);
    match index_of_slug(docs, b.slug@) {
        Some(i) => {
            let n = docs.update(i, b);
            assert forall|k: int| 0 <= k < n.len() implies (#[trigger] n[k]).slug@ == docs[k].slug@ by {}
            lemma_index_of_slug_same_slugs(n, docs, b.slug@);
        },
        None => {
            lemma_index_of_slug_push(docs, b, b.slug@);
        },
    }
}

/// After the built-in documents are merged, looking up the slug of any of them
/// finds that built-in document (when no two built-ins share a slug).
pub proof fn lemma_merge_provides_builtins(docs: Seq<DocEntry>, builtins: Seq<DocEntry>)
    requires
        distinct_slugs(builtins),
    ensures
        forall|j: int|
            0 <= j < builtins.len() ==> (index_of_slug(merge_all(docs, builtins), (#[trigger] builtins[j]).slug@) matches Some(i)
                && merge_all(docs, builtins)[i] == builtins[j]),
    decreases builtins.len(),
{
    if builtins.len() > 0 {
        let init = builtins.drop_last();
        let b = builtins.last();
        assert(distinct_slugs(init));
        lemma_merge_provides_builtins(docs, init);
        let m = merge_all(docs, init);
        lemma_merge_one_own_slug(m, b);
        assert forall|j: int| 0 <= j < builtins.len() implies (index_of_slug(merge_all(docs, builtins), (#[trigger] builtins[j]).slug@) matches Some(i)
            && merge_all(docs, builtins)[i] == builtins[j]) by {
            if j < builtins.len() - 1 {
                assert(builtins[j] == init[j]);
                assert(builtins[j].slug@ != b.slug@);
                lemma_merge_one_other_slug(m, b, builtins[j].slug@);
            }
        }
    }
}

/// Merging the built-in documents keeps every document whose slug no built-in
/// has, at its place, and removes no document.
pub proof fn lemma_merge_keeps_other_docs(docs: Seq<DocEntry>, builtins: Seq<DocEntry>)
    ensures
        merge_all(docs, builtins).len() >= docs.len(),
        forall|i: int|
            0 <= i < docs.len() && (forall|j: int| 0 <= j < builtins.len() ==> (#[trigger] builtins[j]).slug@ != docs[i].slug@)
                ==> #[trigger] merge_all(docs, builtins)[i] == docs[i],
    decreases builtins.len(),
{
    if builtins.len() > 0 {
        let init = builtins.drop_last();
        let b = builtins.last();
        lemma_merge_keeps_other_docs(docs, init);
        let m = merge_all(docs, init);
        lemma_index_of_slug(m, b.slug@);
        assert forall|i: int|
            0 <= i < docs.len() && (forall|j: int| 0 <= j < builtins.len() ==> (#[trigger] builtins[j]).slug@ != docs[i].slug@)
                implies #[trigger] merge_all(docs, builtins)[i] == docs[i] by {
            assert forall|j: int| 0 <= j < init.len() implies (#[trigger] init[j]).slug@ != docs[i].slug@ by {
                assert(init[j] == builtins[j]);
            }
            assert(builtins[builtins.len() - 1] == b);
            assert(m[i] == docs[i]);
        }
    }
}

/// The last built-in document with slug `slug`, if any.
pub open spec fn last_with_slug(builtins: Seq<DocEntry>, slug: Seq<char>) -> Option<DocEntry>
    decreases builtins.len(),
{
    if builtins.len() == 0 {
        None
    } else if builtins.last().slug@ == slug {
        Some(builtins.last())
    } else {
        last_with_slug(builtins.drop_last(), slug)
    }
}

/// Every built-in document's slug has a last built-in with that slug.
proof fn lemma_last_with_slug_exists(builtins: Seq<DocEntry>, j: int)
    requires
        0 <= j < builtins.len(),
    ensures
        last_with_slug(builtins, builtins[j].slug@) is Some,
    decreases builtins.len(),
{
    if builtins.last().slug@ != builtins[j].slug@ {
        assert(builtins.drop_last()[j] == builtins[j]);
        lemma_last_with_slug_exists(builtins.drop_last(), j);
    }
}

/// After the built-in documents are merged, the first document with the slug
/// of a built-in is the last built-in with that slug (a later built-in replaces
/// an earlier one with the same slug).
pub proof fn lemma_merge_last_builtin_wins(docs: Seq<DocEntry>, builtins: Seq<DocEntry>, slug: Seq<char>)
    ensures
        last_with_slug(builtins, slug) matches Some(b) ==> (index_of_slug(merge_all(docs, builtins), slug) matches Some(i)
            && merge_all(docs, builtins)[i] == b),
    decreases builtins.len(),
{
    if builtins.len() > 0 {
        let init = builtins.drop_last();
        let b = builtins.last();
        lemma_merge_last_builtin_wins(docs, init, slug);
        let m = merge_all(docs, init);
        if b.slug@ == slug {
            lemma_merge_one_own_slug(m, b);
        } else {
            lemma_merge_one_other_slug(m, b, slug);
        }
    }
}

/// Merging the built-in documents a second time changes nothing.
pub proof fn lemma_merge_idempotent(docs: Seq<DocEntry>, builtins: Seq<DocEntry>)
    ensures
        merge_all(merge_all(docs, builtins), builtins) == merge_all(docs, builtins),
{
    let m = merge_all(docs, builtins);
    lemma_remerge_prefix(docs, builtins, builtins.len() as int);
    assert(builtins.take(builtins.len() as int) =~= builtins);
    let n = merge_all(m, builtins);
    assert forall|i: int| 0 <= i < m.len() implies n[i] == m[i] by {
        if n[i] != m[i] {
            let s = m[i].slug@;
            lemma_merge_last_builtin_wins(docs, builtins, s);
        }
    }
    assert(n =~= m);
}

/// Merging the first `k` built-ins again into the merged documents keeps the
/// slugs in place, and changes a document only where it is the first with a
/// slug, into the last of those `k` built-ins with that slug.
proof fn lemma_remerge_prefix(docs: Seq<DocEntry>, builtins: Seq<DocEntry>, k: int)
    requires
        0 <= k <= builtins.len(),
    ensures
        ({
            let m = merge_all(docs, builtins);
            let n = merge_all(m, builtins.take(k));
            &&& n.len() == m.len()
            &&& forall|i: int| 0 <= i < m.len() ==> (#[trigger] n[i]).slug@ == m[i].slug@
            &&& forall|i: int|
                0 <= i < m.len() ==> #[trigger] n[i] == m[i] || (index_of_slug(m, m[i].slug@) == Some(i)
                    && last_with_slug(builtins.take(k), m[i].slug@) == Some(n[i]))
        }),
    decreases k,
{
    let m = merge_all(docs, builtins);
    if k == 0 {
        assert(builtins.take(0) =~= Seq::<DocEntry>::empty());
    } else {
        lemma_remerge_prefix(docs, builtins, k - 1);
        let t = builtins.take(k);
        let prev = builtins.take(k - 1);
        assert(t.drop_last() =~= prev);
        let b = builtins[k - 1];
        assert(t.last() == b);
        let np = merge_all(m, prev);
        let s = b.slug@;
        lemma_last_with_slug_exists(builtins, k - 1);
        lemma_merge_last_builtin_wins(docs, builtins, s);
        let i = index_of_slug(m, s)->0;
        lemma_index_of_slug(m, s);
        lemma_index_of_slug_same_slugs(np, m, s);
        assert(index_of_slug(np, s) == Some(i));
        let n = merge_all(m, t);
        assert(n == np.update(i, b));
        assert forall|j: int| 0 <= j < m.len() implies #[trigger] n[j] == m[j] || (index_of_slug(m, m[j].slug@) == Some(j)
            && last_with_slug(t, m[j].slug@) == Some(n[j])) by {
            if j == i {
                assert(m[i].slug@ == s);
            } else {
                assert(n[j] == np[j]);
                if np[j] != m[j] {
                    if m[j].slug@ == s {
                        assert(index_of_slug(m, s) == Some(j));
                    }
                }
            }
        }
    }
}

// ---------------------------------------------------------------------------
// Documents from front matter
// ---------------------------------------------------------------------------

/// The characters `.md`.
pub open spec fn markdown_ext() -> Seq<char> {
    seq!['.', 'm', 'd']
}

/// The slug of a document file: its name without any trailing `.md`.
pub open spec fn spec_slug(filename: Seq<char>) -> Seq<char> {
    strip_suffix_all(filename, markdown_ext())
}

/// The title of a document: the front matter's `title`, or else the slug with
/// dashes read as spaces.
pub open spec fn spec_title(slug: Seq<char>, meta_title: Option<Seq<char>>) -> Seq<char> {
    match meta_title {
        Some(t) => t,
        None => replace_char(slug, '-', ' '),
    }
}

/// The sort order of a document: the front matter's `order` when it parses as
/// an `i32`, or else 100.
pub open spec fn spec_order(meta_order: Option<Seq<char>>) -> i32 {
    match meta_order {
        Some(o) => match spec_parse_i32(o) {
            Some(v) => v,
            None => DEFAULT_ORDER,
        },
        None => DEFAULT_ORDER,
    }
}

/// A document's title is the front matter's title exactly as written; only
/// without one is the title derived from the slug, each `-` read as a space and
/// every other character kept.
pub proof fn lemma_doc_title(slug: Seq<char>, meta_title: Option<Seq<char>>)
    ensures
        meta_title matches Some(t) ==> spec_title(slug, meta_title) == t,
        meta_title is None ==> spec_title(slug, meta_title).len() == slug.len() && forall|i: int|
            0 <= i < slug.len() ==> #[trigger] spec_title(slug, meta_title)[i] == if slug[i] == '-' {
                ' '
            } else {
                slug[i]
            },
{
}

/// The characters `.md`.
fn markdown_ext_chars() -> (r: Vec<char>)
    ensures
        r@ == markdown_ext(),
{
    let mut r: Vec<char> = Vec::new();
    r.push('.');
    r.push('m');
    r.push('d');
    r
}

/// Builds the document for the Markdown file `filename`, given the `title` and
/// `order` values of its front matter (when present) and its rendered body.
pub fn doc_from_front_matter(
    filename: &str,
    meta_title: Option<&str>,
    meta_order: Option<&str>,
    body_html: String,
) -> (r: DocEntry)
    ensures
        r.slug@ == spec_slug(filename@),
        r.title@ == spec_title(spec_slug(filename@), match meta_title {
            Some(t) => Some(t@),
            None => None,
        }),
        r.order == spec_order(match meta_order {
            Some(o) => Some(o@),
            None => None,
        }),
        r.body_html == body_html,
        meta_title matches Some(t) ==> r.title@ == t@,
        meta_title is None ==> r.title@.len() == r.slug@.len() && forall|i: int|
            0 <= i < r.slug@.len() ==> #[trigger] r.title@[i] == if r.slug@[i] == '-' {
                ' '
            } else {
                r.slug@[i]
            },
        meta_order is None ==> r.order == 100,
{
    let name = chars_of(filename);
    let slug = strip_suffix_repeated(&name, &markdown_ext_chars());
    let title = match meta_title {
        Some(t) => t.to_owned(),
        None => string_of(&replace_chars(&slug, '-', ' ')),
    };
    let order = match meta_order {
        Some(o) => match parse_i32(&chars_of(o)) {
            Some(v) => v,
            None => DEFAULT_ORDER,
        },
        None => DEFAULT_ORDER,
    };
    DocEntry { slug: string_of(&slug), title, order, body_html }
}

} // verus!
