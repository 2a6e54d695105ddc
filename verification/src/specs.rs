//! SIGMA-RACER build spec sheets: which repository files are spec documents,
//! their tab ids and labels, and the order of the tabs.

use vstd::prelude::*;
use crate::order::{is_stable_order, key_lt, lemma_key_transitive, lemma_key_trichotomy, stable_order, text_views};
use crate::text::{
    chars_equal, chars_less, chars_of, eq_ignore_ascii_case, equal_ignoring_ascii_case, ends_with,
    has_suffix, string_of, strip_suffix_all, strip_suffix_repeated,
};

verus! {

/// One racer repo document rendered for the specs page.
#[derive(Debug, Clone)]
pub struct SpecDocumentView {
    pub id: String,
    pub label: String,
    pub html: String,
}

/// One downloaded spec document before rendering: tab id, label, and raw Markdown.
#[derive(Debug, Clone)]
pub struct SpecSource {
    pub id: String,
    pub label: String,
    pub markdown: String,
}

impl SpecSource {
    /// A copy of this source, equal to it field by field.
    pub fn duplicate(&self) -> (r: SpecSource)
        ensures
            r == *self,
    {
        SpecSource { id: self.id.clone(), label: self.label.clone(), markdown: self.markdown.clone() }
    }
}

// ---------------------------------------------------------------------------
// Which files are spec documents
// ---------------------------------------------------------------------------

/// Root markdown that is not a build specification (legal, meta, tooling).
pub open spec fn non_spec_markdown() -> Seq<Seq<char>> {
    seq![
        "BRANDING.md"@,
        "CHANGELOG.md"@,
        "CODE_OF_CONDUCT.md"@,
        "CONTRIBUTING.md"@,
        "LICENSE.md"@,
        "SECURITY.md"@,
    ]
}

fn non_spec_markdown_names() -> (r: Vec<&'static str>)
    ensures
        r@.len() == non_spec_markdown().len(),
        forall|i: int| 0 <= i < r@.len() ==> (#[trigger] r@[i])@ == non_spec_markdown()[i],
{
    vec!["BRANDING.md", "CHANGELOG.md", "CODE_OF_CONDUCT.md", "CONTRIBUTING.md", "LICENSE.md", "SECURITY.md"]
}

/// A file of the racer repository is a spec document: a `.md` file whose
/// name is none of the non-spec names, ignoring ASCII case.
pub open spec fn spec_is_spec_markdown(filename: Seq<char>) -> bool {
    &&& has_suffix(filename, ".md"@)
    &&& forall|i: int| 0 <= i < non_spec_markdown().len() ==> !eq_ignore_ascii_case(#[trigger] non_spec_markdown()[i], filename)
}

/// Whether a repository file is a build spec document.
pub fn is_spec_markdown(filename: &str) -> (r: bool)
    ensures
        r == spec_is_spec_markdown(filename@),
{
    let name = chars_of(filename);
    if !ends_with(&name, &chars_of(".md")) {
        return false;
    }
    let excluded = non_spec_markdown_names();
    let mut i: usize = 0;
    while i < excluded.len()
        invariant
            i <= excluded@.len() == non_spec_markdown().len(),
            forall|k: int| 0 <= k < excluded@.len() ==> (#[trigger] excluded@[k])@ == non_spec_markdown()[k],
            name@ == filename@,
            forall|k: int| 0 <= k < i ==> !eq_ignore_ascii_case(#[trigger] non_spec_markdown()[k], filename@),
        decreases excluded.len() - i,
    {
        if equal_ignoring_ascii_case(&chars_of(excluded[i]), &name) {
            return false;
        }
        i = i + 1;
    }
    true
}

/// Which files are build specs: no file named like a legal, meta or tooling
/// document (`BRANDING.md`, `CHANGELOG.md`, `CODE_OF_CONDUCT.md`,
/// `CONTRIBUTING.md`, `LICENSE.md`, `SECURITY.md`, in any ASCII case), no file
/// without the `.md` ending, and every other `.md` file.
pub proof fn lemma_spec_markdown_names(n: Seq<char>)
    ensures
        eq_ignore_ascii_case("BRANDING.md"@, n) ==> !spec_is_spec_markdown(n),
        eq_ignore_ascii_case("CHANGELOG.md"@, n) ==> !spec_is_spec_markdown(n),
        eq_ignore_ascii_case("CODE_OF_CONDUCT.md"@, n) ==> !spec_is_spec_markdown(n),
        eq_ignore_ascii_case("CONTRIBUTING.md"@, n) ==> !spec_is_spec_markdown(n),
        eq_ignore_ascii_case("LICENSE.md"@, n) ==> !spec_is_spec_markdown(n),
        eq_ignore_ascii_case("SECURITY.md"@, n) ==> !spec_is_spec_markdown(n),
        !has_suffix(n, ".md"@) ==> !spec_is_spec_markdown(n),
        has_suffix(n, ".md"@) && !eq_ignore_ascii_case("BRANDING.md"@, n) && !eq_ignore_ascii_case("CHANGELOG.md"@, n)
            && !eq_ignore_ascii_case("CODE_OF_CONDUCT.md"@, n) && !eq_ignore_ascii_case("CONTRIBUTING.md"@, n)
            && !eq_ignore_ascii_case("LICENSE.md"@, n) && !eq_ignore_ascii_case("SECURITY.md"@, n)
            ==> spec_is_spec_markdown(n),
{
    let names = non_spec_markdown();
    assert(names[0] == "BRANDING.md"@);
    assert(names[1] == "CHANGELOG.md"@);
    assert(names[2] == "CODE_OF_CONDUCT.md"@);
    assert(names[3] == "CONTRIBUTING.md"@);
    assert(names[4] == "LICENSE.md"@);
    assert(names[5] == "SECURITY.md"@);
}

/// Positions, in listing order, of the spec documents among the first `upto`
/// file names of a repository listing.
pub open spec fn spec_file_positions_upto(names: Seq<Seq<char>>, upto: int) -> Seq<usize>
    decreases upto,
{
    if upto <= 0 {
        seq![]
    } else if spec_is_spec_markdown(names[upto - 1]) {
        spec_file_positions_upto(names, upto - 1).push((upto - 1) as usize)
    } else {
        spec_file_positions_upto(names, upto - 1)
    }
}

/// The names of a listing's files.
pub open spec fn name_views(names: Seq<String>) -> Seq<Seq<char>> {
    names.map_values(|n: String| n@)
}

/// Positions, in listing order, of the files of a repository listing that
/// are build spec documents: the entries kept from the listing.
pub fn spec_file_positions(names: &Vec<String>) -> (r: Vec<usize>)
    ensures
        r@ == spec_file_positions_upto(name_views(names@), names@.len() as int),
{
    let mut r: Vec<usize> = Vec::new();
    let mut i: usize = 0;
    while i < names.len()
        invariant
            i <= names.len(),
            r@ == spec_file_positions_upto(name_views(names@), i as int),
        decreases names.len() - i,
    {
        assert(name_views(names@)[i as int] == names@[i as int]@);
        if is_spec_markdown(names[i].as_str()) {
            r.push(i);
        }
        i = i + 1;
    }
    r
}

/// A position is kept exactly when the file there is a spec document, and
/// kept positions come in increasing order.
pub proof fn lemma_spec_file_positions(names: Seq<Seq<char>>, upto: int)
    requires
        0 <= upto <= names.len(),
        names.len() <= usize::MAX,
    ensures
        forall|i: int| 0 <= i < upto ==> (spec_file_positions_upto(names, upto).contains(i as usize)
            <==> spec_is_spec_markdown(#[trigger] names[i])),
        forall|a: int, b: int|
            0 <= a < b < spec_file_positions_upto(names, upto).len() ==> #[trigger] spec_file_positions_upto(names, upto)[a]
                < #[trigger] spec_file_positions_upto(names, upto)[b],
        forall|k: int|
            0 <= k < spec_file_positions_upto(names, upto).len() ==> #[trigger] spec_file_positions_upto(names, upto)[k] < upto,
    decreases upto,
{
    if upto > 0 {
        lemma_spec_file_positions(names, upto - 1);
        let p = spec_file_positions_upto(names, upto - 1);
        let q = spec_file_positions_upto(names, upto);
        assert forall|i: int| 0 <= i < upto implies (q.contains(i as usize) <==> spec_is_spec_markdown(#[trigger] names[i])) by {
            if q.contains(i as usize) {
                let k = choose|k: int| 0 <= k < q.len() && q[k] == i as usize;
                if i < upto - 1 {
                    assert(k < p.len());
                    assert(p[k] == i as usize);
                    assert(p.contains(i as usize));
                }
            }
            if spec_is_spec_markdown(names[i]) {
                if i < upto - 1 {
                    assert(p.contains(i as usize));
                    let k = choose|k: int| 0 <= k < p.len() && p[k] == i as usize;
                    assert(q[k] == i as usize);
                } else {
                    assert(q[q.len() - 1] == i as usize);
                }
            }
        }
    }
}

// ---------------------------------------------------------------------------
// Tab ids and labels
// ---------------------------------------------------------------------------

/// Tab id of a spec file: `README.md` is the overview, the emissions
/// certification is `emissions`, any other file is its name without `.md`.
pub open spec fn tab_id_of(filename: Seq<char>) -> Seq<char> {
    if filename == "README.md"@ {
        "overview"@
    } else if filename == "emissions_certification.md"@ {
        "emissions"@
    } else {
        strip_suffix_all(filename, ".md"@)
    }
}

/// Upper case of one character, as `char::to_uppercase` yields it (one or
/// more characters).
pub uninterp spec fn uppercase_of(c: char) -> Seq<char>;

/// Trusted: calls `char::to_uppercase`, whose characters depend on `c` alone
/// (the Unicode upper-case mapping), and collects them; the result is named
/// `uppercase_of`.
#[verifier::external_body]
fn char_to_uppercase(c: char) -> (r: Vec<char>)
    ensures
        r@ == uppercase_of(c),
{
    c.to_uppercase().collect()
}

/// Title of a snake-case name: each `_` becomes a space, and the first
/// character of every word (at the start or after a `_`) is upper-cased.
pub open spec fn title_words(s: Seq<char>, at_word_start: bool) -> Seq<char>
    decreases s.len(),
{
    if s.len() == 0 {
        seq![]
    } else if s[0] == '_' {
        seq![' '] + title_words(s.drop_first(), true)
    } else if at_word_start {
        uppercase_of(s[0]) + title_words(s.drop_first(), false)
    } else {
        seq![s[0]] + title_words(s.drop_first(), false)
    }
}

/// Title of a snake-case name (`split('_')`, capitalize, `join(" ")`).
pub open spec fn snake_case_title(s: Seq<char>) -> Seq<char> {
    title_words(s, true)
}

/// Label of a spec tab: `Overview` for `README.md`, `Emissions` for the
/// emissions certification, otherwise the file name without `.md` as a title.
pub open spec fn tab_label_of(filename: Seq<char>) -> Seq<char> {
    if filename == "README.md"@ {
        "Overview"@
    } else if filename == "emissions_certification.md"@ {
        "Emissions"@
    } else {
        snake_case_title(strip_suffix_all(filename, ".md"@))
    }
}

/// Tab id of a spec file.
pub fn spec_id_from_filename(filename: &str) -> (r: String)
    ensures
        r@ == tab_id_of(filename@),
{
    let name = chars_of(filename);
    if chars_equal(&name, &chars_of("README.md")) {
        "overview".to_owned()
    } else if chars_equal(&name, &chars_of("emissions_certification.md")) {
        "emissions".to_owned()
    } else {
        string_of(&strip_suffix_repeated(&name, &chars_of(".md")))
    }
}

/// Tab label of a spec file.
pub fn spec_label_from_filename(filename: &str) -> (r: String)
    ensures
        r@ == tab_label_of(filename@),
{
    let name = chars_of(filename);
    if chars_equal(&name, &chars_of("README.md")) {
        "Overview".to_owned()
    } else if chars_equal(&name, &chars_of("emissions_certification.md")) {
        "Emissions".to_owned()
    } else {
        let stem = string_of(&strip_suffix_repeated(&name, &chars_of(".md")));
        title_from_snake_case(stem.as_str())
    }
}

/// Title of a snake-case name: words split on `_`, first characters upper-cased,
/// joined by spaces.
pub fn title_from_snake_case(value: &str) -> (r: String)
    ensures
        r@ == snake_case_title(value@),
{
    let s = chars_of(value);
    let mut out: Vec<char> = Vec::new();
    let mut at_word_start = true;
    let mut i: usize = 0;
    assert(s@.skip(0) =~= s@);
    while i < s.len()
        invariant
            i <= s.len(),
            out@ + title_words(s@.skip(i as int), at_word_start) == snake_case_title(s@),
        decreases s.len() - i,
    {
        let c = s[i];
        let ghost rest = s@.skip(i as int);
        assert(rest.drop_first() =~= s@.skip(i + 1));
        assert(rest[0] == c);
        let ghost before = out@;
        if c == '_' {
            out.push(' ');
            at_word_start = true;
            assert(before + (seq![' '] + title_words(s@.skip(i + 1), true)) =~= out@ + title_words(s@.skip(i + 1), true));
        } else if at_word_start {
            let upper = char_to_uppercase(c);
            let mut k: usize = 0;
            while k < upper.len()
                invariant
                    k <= upper.len(),
                    out@ == before + upper@.take(k as int),
                decreases upper.len() - k,
            {
                out.push(upper[k]);
                assert(upper@.take(k + 1) =~= upper@.take(k as int).push(upper@[k as int]));
                k = k + 1;
            }
            assert(upper@.take(upper.len() as int) =~= upper@);
            at_word_start = false;
            assert(before + (uppercase_of(c) + title_words(s@.skip(i + 1), false)) =~= out@ + title_words(s@.skip(i + 1), false));
        } else {
            out.push(c);
            assert(before + (seq![c] + title_words(s@.skip(i + 1), false)) =~= out@ + title_words(s@.skip(i + 1), false));
        }
        i = i + 1;
    }
    assert(s@.skip(s.len() as int) =~= Seq::<char>::empty());
    assert(out@ + Seq::<char>::empty() =~= out@);
    string_of(&out)
}

// ---------------------------------------------------------------------------
// Tab order
// ---------------------------------------------------------------------------

/// Preferred tab order; unknown documents come after, alphabetically by label.
pub open spec fn tab_order() -> Seq<Seq<char>> {
    seq![
        "overview"@,
        "build"@,
        "engine"@,
        "chassis"@,
        "bodywork"@,
        "electrical"@,
        "electronics"@,
        "efi"@,
        "emissions"@,
    ]
}

fn tab_order_ids() -> (r: Vec<&'static str>)
    ensures
        r@.len() == tab_order().len(),
        forall|i: int| 0 <= i < r@.len() ==> (#[trigger] r@[i])@ == tab_order()[i],
{
    vec!["overview", "build", "engine", "chassis", "bodywork", "electrical", "electronics", "efi", "emissions"]
}

/// Position of `id` in `ids` from `from` on, if it occurs there.
pub open spec fn position_from(ids: Seq<Seq<char>>, id: Seq<char>, from: int) -> Option<int>
    decreases ids.len() - from,
{
    if from < 0 || from >= ids.len() {
        None
    } else if ids[from] == id {
        Some(from)
    } else {
        position_from(ids, id, from + 1)
    }
}

/// Rank of a tab id: its position in the preferred order, or `usize::MAX` for
/// an id that is not there.
pub open spec fn tab_rank(id: Seq<char>) -> int {
    match position_from(tab_order(), id, 0) {
        Some(i) => i,
        None => usize::MAX as int,
    }
}

/// Rank of a tab id.
pub fn tab_rank_of(id: &str) -> (r: usize)
    ensures
        r as int == tab_rank(id@),
{
    let wanted = chars_of(id);
    let ids = tab_order_ids();
    let mut i: usize = 0;
    while i < ids.len()
        invariant
            i <= ids@.len() == tab_order().len(),
            forall|k: int| 0 <= k < ids@.len() ==> (#[trigger] ids@[k])@ == tab_order()[k],
            wanted@ == id@,
            position_from(tab_order(), id@, 0) == position_from(tab_order(), id@, i as int),
        decreases ids.len() - i,
    {
        if chars_equal(&chars_of(ids[i]), &wanted) {
            return i;
        }
        i = i + 1;
    }
    usize::MAX
}

/// Strict order of spec sources: by tab rank, then by label.
pub open spec fn source_before(a: SpecSource, b: SpecSource) -> bool {
    key_lt(tab_rank(a.id@), a.label@, tab_rank(b.id@), b.label@)
}

/// How two spec sources compare: by tab rank, then by label.
pub open spec fn source_ordering(a: SpecSource, b: SpecSource) -> core::cmp::Ordering {
    if source_before(a, b) {
        core::cmp::Ordering::Less
    } else if tab_rank(a.id@) == tab_rank(b.id@) && a.label@ == b.label@ {
        core::cmp::Ordering::Equal
    } else {
        core::cmp::Ordering::Greater
    }
}

/// Compares two spec sources for tab order: known tabs in their preferred
/// order, then unknown ones, ties broken by label.
pub fn compare_spec_sources(left: &SpecSource, right: &SpecSource) -> (r: core::cmp::Ordering)
    ensures
        r == source_ordering(*left, *right),
{
    let left_rank = tab_rank_of(left.id.as_str());
    let right_rank = tab_rank_of(right.id.as_str());
    if left_rank < right_rank {
        return core::cmp::Ordering::Less;
    }
    if right_rank < left_rank {
        return core::cmp::Ordering::Greater;
    }
    let left_label = chars_of(left.label.as_str());
    let right_label = chars_of(right.label.as_str());
    if chars_less(&left_label, &right_label) {
        core::cmp::Ordering::Less
    } else if chars_equal(&left_label, &right_label) {
        core::cmp::Ordering::Equal
    } else {
        core::cmp::Ordering::Greater
    }
}

/// `compare_spec_sources` is a total order: it is antisymmetric ...
pub proof fn lemma_source_ordering_antisymmetric(a: SpecSource, b: SpecSource)
    ensures
        (source_ordering(a, b) == core::cmp::Ordering::Less) == (source_ordering(b, a) == core::cmp::Ordering::Greater),
        (source_ordering(a, b) == core::cmp::Ordering::Equal) == (source_ordering(b, a) == core::cmp::Ordering::Equal),
        source_ordering(a, a) == core::cmp::Ordering::Equal,
{
    lemma_key_trichotomy(tab_rank(a.id@), a.label@, tab_rank(b.id@), b.label@);
    lemma_key_trichotomy(tab_rank(a.id@), a.label@, tab_rank(a.id@), a.label@);
}

/// ... and transitive.
pub proof fn lemma_source_ordering_transitive(a: SpecSource, b: SpecSource, c: SpecSource)
    ensures
        source_ordering(a, b) == core::cmp::Ordering::Less && source_ordering(b, c) == core::cmp::Ordering::Less
            ==> source_ordering(a, c) == core::cmp::Ordering::Less,
        source_ordering(a, b) != core::cmp::Ordering::Greater && source_ordering(b, c) != core::cmp::Ordering::Greater
            ==> source_ordering(a, c) != core::cmp::Ordering::Greater,
{
    lemma_key_transitive(tab_rank(a.id@), a.label@, tab_rank(b.id@), b.label@, tab_rank(c.id@), c.label@);
    lemma_key_trichotomy(tab_rank(a.id@), a.label@, tab_rank(c.id@), c.label@);
}

/// Known tabs come first, in the preferred order: a source whose id is in the
/// preferred order comes before one whose id is not, whatever the labels.
pub proof fn lemma_known_tabs_first(a: SpecSource, b: SpecSource)
    requires
        tab_order().contains(a.id@),
        !tab_order().contains(b.id@),
    ensures
        source_ordering(a, b) == core::cmp::Ordering::Less,
{
    lemma_position_from_contains(tab_order(), a.id@, 0);
    lemma_position_from_contains(tab_order(), b.id@, 0);
    lemma_position_from_range(tab_order(), a.id@, 0);
}

/// Sources with preferred tab ids compare by their place in the preferred
/// order, whatever the labels.
pub proof fn lemma_preferred_tabs_in_order(a: SpecSource, b: SpecSource, i: int, j: int)
    requires
        0 <= i < j < tab_order().len(),
        a.id@ == tab_order()[i],
        b.id@ == tab_order()[j],
    ensures
        source_ordering(a, b) == core::cmp::Ordering::Less,
{
    lemma_tab_ranks();
}

/// Sources with ids outside the preferred order compare by label alone.
pub proof fn lemma_unknown_tabs_by_label(a: SpecSource, b: SpecSource)
    requires
        !tab_order().contains(a.id@),
        !tab_order().contains(b.id@),
    ensures
        source_ordering(a, b) == core::cmp::Ordering::Less <==> crate::text::seq_lt(a.label@, b.label@),
{
    lemma_position_from_contains(tab_order(), a.id@, 0);
    lemma_position_from_contains(tab_order(), b.id@, 0);
}

/// `position_from` finds an id exactly when it occurs from `from` on.
pub proof fn lemma_position_from_contains(ids: Seq<Seq<char>>, id: Seq<char>, from: int)
    requires
        0 <= from <= ids.len(),
    ensures
        position_from(ids, id, from) is Some <==> exists|k: int| from <= k < ids.len() && ids[k] == id,
        from == 0 ==> (position_from(ids, id, from) is Some <==> ids.contains(id)),
    decreases ids.len() - from,
{
    if from < ids.len() {
        lemma_position_from_contains(ids, id, from + 1);
    }
}

/// A spec-tab listing in tab order never has a source that compares greater
/// than a later one.
pub proof fn lemma_sorted_sources_ordered(sources: Seq<SpecSource>, sorted: Seq<SpecSource>)
    requires
        is_tab_order(sources, sorted),
    ensures
        forall|a: int, b: int|
            0 <= a < b < sorted.len() ==> source_ordering(#[trigger] sorted[a], #[trigger] sorted[b]) != core::cmp::Ordering::Greater,
{
    lemma_tab_order_sorted(sources, sorted);
    assert forall|a: int, b: int| 0 <= a < b < sorted.len() implies source_ordering(#[trigger] sorted[a], #[trigger] sorted[b])
        != core::cmp::Ordering::Greater by {
        assert(!source_before(sorted[b], sorted[a]));
        lemma_key_trichotomy(tab_rank(sorted[a].id@), sorted[a].label@, tab_rank(sorted[b].id@), sorted[b].label@);
    }
}

// ---------------------------------------------------------------------------
// Sorting the tabs
// ---------------------------------------------------------------------------

/// The sort keys' ranks of spec sources.
pub open spec fn source_ranks(sources: Seq<SpecSource>) -> Seq<i128> {
    sources.map_values(|s: SpecSource| tab_rank(s.id@) as i128)
}

/// The sort keys' texts of spec sources: their labels.
pub open spec fn source_labels(sources: Seq<SpecSource>) -> Seq<Seq<char>> {
    sources.map_values(|s: SpecSource| s.label@)
}

/// `sorted` is `sources` in tab order, sources that compare equal keeping
/// their original relative order (a stable sort by `compare_spec_sources`).
pub open spec fn is_tab_order(sources: Seq<SpecSource>, sorted: Seq<SpecSource>) -> bool {
    exists|perm: Seq<usize>|
        {
            &&& is_stable_order(source_ranks(sources), source_labels(sources), perm)
            &&& sorted.len() == perm.len()
            &&& forall|k: int| 0 <= k < perm.len() ==> #[trigger] sorted[k] == sources[perm[k] as int]
        }
}

/// Sorts spec sources into tab order (stable).
pub fn sort_spec_sources(sources: &Vec<SpecSource>) -> (r: Vec<SpecSource>)
    ensures
        is_tab_order(sources@, r@),
{
    let mut ranks: Vec<i128> = Vec::new();
    let mut texts: Vec<Vec<char>> = Vec::new();
    let mut i: usize = 0;
    while i < sources.len()
        invariant
            i <= sources.len(),
            ranks@ == source_ranks(sources@).take(i as int),
            text_views(texts@) == source_labels(sources@).take(i as int),
        decreases sources.len() - i,
    {
        let rank = tab_rank_of(sources[i].id.as_str());
        ranks.push(rank as i128);
        let ghost old_texts = texts@;
        let label = chars_of(sources[i].label.as_str());
        texts.push(label);
        assert(text_views(texts@) =~= text_views(old_texts).push(label@));
        assert(ranks@ =~= source_ranks(sources@).take(i + 1));
        assert(text_views(texts@) =~= source_labels(sources@).take(i + 1));
        i = i + 1;
    }
    assert(ranks@ =~= source_ranks(sources@));
    assert(text_views(texts@) =~= source_labels(sources@));
    let perm = stable_order(&ranks, &texts);
    let mut r: Vec<SpecSource> = Vec::new();
    let mut k: usize = 0;
    while k < perm.len()
        invariant
            k <= perm.len() == sources.len(),
            is_stable_order(source_ranks(sources@), source_labels(sources@), perm@),
            r.len() == k,
            forall|m: int| 0 <= m < k ==> #[trigger] r@[m] == sources@[perm@[m] as int],
        decreases perm.len() - k,
    {
        r.push(sources[perm[k]].duplicate());
        k = k + 1;
    }
    r
}

/// A position found by `position_from` lies within the list, from `from` on.
pub proof fn lemma_position_from_range(ids: Seq<Seq<char>>, id: Seq<char>, from: int)
    ensures
        position_from(ids, id, from) matches Some(i) ==> 0 <= from <= i < ids.len() && ids[i] == id,
    decreases ids.len() - from,
{
    if 0 <= from < ids.len() && ids[from] != id {
        lemma_position_from_range(ids, id, from + 1);
    }
}

/// The preferred tabs rank by their place in the preferred order: overview,
/// build, engine, chassis, bodywork, electrical, electronics, efi, emissions.
pub proof fn lemma_tab_ranks()
    ensures
        tab_rank("overview"@) == 0,
        tab_rank("build"@) == 1,
        tab_rank("engine"@) == 2,
        tab_rank("chassis"@) == 3,
        tab_rank("bodywork"@) == 4,
        tab_rank("electrical"@) == 5,
        tab_rank("electronics"@) == 6,
        tab_rank("efi"@) == 7,
        tab_rank("emissions"@) == 8,
        forall|i: int| 0 <= i < tab_order().len() ==> tab_rank(#[trigger] tab_order()[i]) == i,
{
    reveal_strlit("overview");
    reveal_strlit("build");
    reveal_strlit("engine");
    reveal_strlit("chassis");
    reveal_strlit("bodywork");
    reveal_strlit("electrical");
    reveal_strlit("electronics");
    reveal_strlit("efi");
    reveal_strlit("emissions");
    reveal_with_fuel(position_from, 10);
    assert("overview"@[0] == 'o');
    assert("build"@[0] == 'b');
    assert("engine"@[0] == 'e' && "engine"@[1] == 'n');
    assert("chassis"@[0] == 'c');
    assert("bodywork"@[0] == 'b' && "bodywork"@[1] == 'o');
    assert("electrical"@[0] == 'e' && "electrical"@[1] == 'l' && "electrical"@.len() == 10);
    assert("electronics"@[0] == 'e' && "electronics"@[1] == 'l' && "electronics"@.len() == 11);
    assert("efi"@[0] == 'e' && "efi"@[1] == 'f');
    assert("emissions"@[0] == 'e' && "emissions"@[1] == 'm');
    assert forall|i: int| 0 <= i < tab_order().len() implies tab_rank(#[trigger] tab_order()[i]) == i by {
        if i == 0 {
        } else if i == 1 {
        } else if i == 2 {
        } else if i == 3 {
        } else if i == 4 {
        } else if i == 5 {
        } else if i == 6 {
        } else if i == 7 {
        } else {
        }
    }
}

/// A tab rank is a position of the preferred order or `usize::MAX`.
pub proof fn lemma_tab_rank_range(id: Seq<char>)
    ensures
        0 <= tab_rank(id) <= usize::MAX,
        (tab_rank(id) as i128) as int == tab_rank(id),
{
    lemma_position_from_range(tab_order(), id, 0);
}

/// In tab order, no source comes before an earlier one.
pub proof fn lemma_tab_order_sorted(sources: Seq<SpecSource>, sorted: Seq<SpecSource>)
    requires
        is_tab_order(sources, sorted),
    ensures
        forall|a: int, b: int| 0 <= a < b < sorted.len() ==> !source_before(#[trigger] sorted[b], #[trigger] sorted[a]),
{
    let perm = choose|perm: Seq<usize>|
        {
            &&& is_stable_order(source_ranks(sources), source_labels(sources), perm)
            &&& sorted.len() == perm.len()
            &&& forall|k: int| 0 <= k < perm.len() ==> #[trigger] sorted[k] == sources[perm[k] as int]
        };
    assert forall|a: int, b: int| 0 <= a < b < sorted.len() implies !source_before(#[trigger] sorted[b], #[trigger] sorted[a]) by {
        let x = sorted[a];
        let y = sorted[b];
        let i = perm[a] as int;
        let j = perm[b] as int;
        assert(x == sources[i]);
        assert(y == sources[j]);
        lemma_tab_rank_range(x.id@);
        lemma_tab_rank_range(y.id@);
        assert(source_ranks(sources)[i] as int == tab_rank(x.id@));
        assert(source_ranks(sources)[j] as int == tab_rank(y.id@));
        assert(source_labels(sources)[i] == x.label@);
        assert(source_labels(sources)[j] == y.label@);
        lemma_key_trichotomy(tab_rank(x.id@), x.label@, tab_rank(y.id@), y.label@);
    }
}

/// The spec source made from a downloaded file (name and Markdown).
pub open spec fn source_from_file(name: Seq<char>, markdown: Seq<char>, s: SpecSource) -> bool {
    s.id@ == tab_id_of(name) && s.label@ == tab_label_of(name) && s.markdown@ == markdown
}

/// Spec sources of downloaded spec files (name and Markdown), in tab order.
pub fn spec_sources_from_files(files: &Vec<(String, String)>) -> (r: Vec<SpecSource>)
    ensures
        exists|unsorted: Seq<SpecSource>|
            {
                &&& unsorted.len() == files@.len()
                &&& forall|k: int| 0 <= k < files@.len() ==> source_from_file(
                    (#[trigger] files@[k]).0@,
                    files@[k].1@,
                    unsorted[k],
                )
                &&& is_tab_order(unsorted, r@)
            },
{
    let mut sources: Vec<SpecSource> = Vec::new();
    let mut i: usize = 0;
    while i < files.len()
        invariant
            i <= files.len(),
            sources.len() == i,
            forall|k: int| 0 <= k < i ==> source_from_file((#[trigger] files@[k]).0@, files@[k].1@, sources@[k]),
        decreases files.len() - i,
    {
        let (name, markdown) = &files[i];
        sources.push(
            SpecSource {
                id: spec_id_from_filename(name.as_str()),
                label: spec_label_from_filename(name.as_str()),
                markdown: markdown.clone(),
            },
        );
        i = i + 1;
    }
    sort_spec_sources(&sources)
}

// ---------------------------------------------------------------------------
// Cached documents
// ---------------------------------------------------------------------------

/// `std::time::Instant`, carried through the cache state without being read.
#[verifier::external_type_specification]
#[verifier::external_body]
pub struct ExInstant(std::time::Instant);

/// Trusted: calls `Instant::elapsed` and converts the duration to whole
/// nanoseconds with `Duration::as_nanos`; the time since `at` depends on the
/// clock, so nothing is stated of it.
#[verifier::external_body]
fn elapsed_nanos_since(at: &std::time::Instant) -> u128 {
    at.elapsed().as_nanos()
}

/// Cached payload plus the instant it was fetched.
pub struct CacheState {
    pub documents: Option<Vec<SpecDocumentView>>,
    pub fetched_at: Option<std::time::Instant>,
}

impl CacheState {
    /// Empty, immediately-stale state.
    pub fn empty() -> (r: Self)
        ensures
            r.documents is None,
            r.fetched_at is None,
    {
        CacheState { documents: None, fetched_at: None }
    }

    /// The cached payload is fresh when `elapsed_nanos` have passed since it
    /// was fetched and the TTL is `ttl_nanos`: there is a payload, a fetch
    /// instant, and the elapsed time is below the TTL.
    pub open spec fn fresh_after(&self, elapsed_nanos: u128, ttl_nanos: u128) -> bool {
        self.documents is Some && self.fetched_at is Some && elapsed_nanos < ttl_nanos
    }

    /// Whether the cached payload is fresh, `elapsed_nanos` after it was
    /// fetched, with a TTL of `ttl_nanos`.
    pub fn is_fresh_given(&self, elapsed_nanos: u128, ttl_nanos: u128) -> (r: bool)
        ensures
            r == self.fresh_after(elapsed_nanos, ttl_nanos),
    {
        self.documents.is_some() && self.fetched_at.is_some() && elapsed_nanos < ttl_nanos
    }

    /// Whether the cached payload is still within its TTL of `ttl_nanos`
    /// nanoseconds. Without a payload or a fetch instant, or with a zero TTL,
    /// it never is; otherwise the time elapsed since the fetch, read from the
    /// clock, is compared with the TTL.
    pub fn is_fresh(&self, ttl_nanos: u128) -> (r: bool)
        ensures
            exists|elapsed_nanos: u128| r == #[trigger] self.fresh_after(elapsed_nanos, ttl_nanos),
            r ==> self.documents is Some && self.fetched_at is Some,
            ttl_nanos == 0 ==> !r,
    {
        match &self.fetched_at {
            Some(at) => {
                if self.documents.is_some() {
                    let elapsed = elapsed_nanos_since(at);
                    let r = self.is_fresh_given(elapsed, ttl_nanos);
                    assert(r == self.fresh_after(elapsed, ttl_nanos));
                    r
                } else {
                    assert(false == self.fresh_after(0, ttl_nanos));
                    false
                }
            },
            None => {
                assert(false == self.fresh_after(0, ttl_nanos));
                false
            },
        }
    }
}

/// Freshness is monotone in the TTL: a payload fresh after some elapsed time
/// with one TTL is fresh after that time with any longer TTL; with a zero TTL
/// nothing is fresh.
pub proof fn lemma_fresh_after_monotone(state: &CacheState, elapsed_nanos: u128, ttl1: u128, ttl2: u128)
    ensures
        state.fresh_after(elapsed_nanos, ttl1) && ttl1 <= ttl2 ==> state.fresh_after(elapsed_nanos, ttl2),
        !state.fresh_after(elapsed_nanos, 0),
{
}

} // verus!
