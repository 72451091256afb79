//! The wiki's naming rules: which URLs are internal page links, how links
//! are rendered as markup, which page a published event lives on, and the
//! fixed display prefix put in front of session names.

use vstd::prelude::*;
use crate::aktool::{EventId, EVENT_KOMA92};
use crate::text::{
    to_chars, chars_to_string, contains_at, first_index_of, lemma_first_index_of_props,
    lemma_contains_at_skip, lemma_begins_concat, has_prefix_at,
};

verus! {

/// The display prefix put in front of session names.
pub open spec fn ak_prefix() -> Seq<char> {
    seq!['A', 'K', ' ']
}

pub open spec fn dom_de() -> Seq<char> {
    "https://de.komapedia.org"@
}

pub open spec fn dom_bare() -> Seq<char> {
    "https://komapedia.org"@
}

pub open spec fn dom_www() -> Seq<char> {
    "https://www.komapedia.org"@
}

pub open spec fn path_wiki() -> Seq<char> {
    "/wiki/"@
}

pub open spec fn path_index() -> Seq<char> {
    "/index.php?title="@
}

/// The page title within a link: everything up to the first `&`.
pub open spec fn title_of(link: Seq<char>) -> Seq<char> {
    link.take(first_index_of(link, '&'))
}

/// The page title a domain-relative URL points at, if its path starts with
/// one of the recognised page-path prefixes.
pub open spec fn page_of_relative(rel: Seq<char>) -> Option<Seq<char>> {
    if contains_at(rel, 0, path_wiki()) {
        Some(title_of(rel.skip(path_wiki().len() as int)))
    } else if contains_at(rel, 0, path_index()) {
        Some(title_of(rel.skip(path_index().len() as int)))
    } else {
        None
    }
}

/// The page title a URL points at, if it is a link into the wiki: one of
/// the known domains followed by a recognised page-path prefix.
pub open spec fn pagelink_of(t: Seq<char>) -> Option<Seq<char>> {
    if contains_at(t, 0, dom_de()) {
        page_of_relative(t.skip(dom_de().len() as int))
    } else if contains_at(t, 0, dom_bare()) {
        page_of_relative(t.skip(dom_bare().len() as int))
    } else if contains_at(t, 0, dom_www()) {
        page_of_relative(t.skip(dom_www().len() as int))
    } else {
        None
    }
}

/// The markup for a labelled link: the bare label without a target, an
/// internal `[[title|label]]` link for wiki URLs, an external `[url label]`
/// link otherwise.
pub open spec fn link_markup(label: Seq<char>, target: Option<Seq<char>>) -> Seq<char> {
    match target {
        None => label,
        Some(t) => match pagelink_of(t) {
            Some(page) => "[["@ + page + "|"@ + label + "]]"@,
            None => "["@ + t + " "@ + label + "]"@,
        },
    }
}

pub open spec fn opt_str_view(o: Option<String>) -> Option<Seq<char>> {
    match o {
        Some(s) => Some(s@),
        None => None,
    }
}

/// The wiki page of a published event, for the events the wiki knows.
pub open spec fn event_page(event: EventId) -> Option<Seq<char>> {
    if event.0 == EVENT_KOMA92 {
        Some("KoMa_92"@)
    } else {
        None
    }
}

/// A name under the display prefix; names that already carry it are kept.
pub open spec fn with_prefix_spec(s: Seq<char>) -> Seq<char> {
    if contains_at(s, 0, ak_prefix()) {
        s
    } else {
        ak_prefix() + s
    }
}

/// Spaces replaced by the wiki's internal word separator.
pub open spec fn space_to_underscore(s: Seq<char>) -> Seq<char> {
    s.map_values(|c: char| if c == ' ' { '_' } else { c })
}

/// Prefixing is idempotent: a second application changes nothing, so
/// re-resolving a session never changes its canonical names.
pub proof fn lemma_with_prefix_idempotent(s: Seq<char>)
    ensures
        with_prefix_spec(with_prefix_spec(s)) == with_prefix_spec(s),
{
    if !contains_at(s, 0, ak_prefix()) {
        lemma_begins_concat(ak_prefix(), s);
    }
}

/// The tag-based lookup scoped to one session: the ask query selecting
/// every page marked as generated for this canonical title.
pub open spec fn semantic_query_spec(title: Seq<char>) -> Seq<char> {
    "[[Erzeugt von aksync für::"@ + title + "]]"@
}

/// Builds the tag query for a session's canonical title.
pub fn semantic_query(title: &str) -> (r: String)
    ensures
        r@ == semantic_query_spec(title@),
{
    let mut r = String::from_str("[[Erzeugt von aksync für::");
    r.append(title);
    r.append("]]");
    r
}

/// Extracts the page title from position `base` up to the first `&`.
fn title_from(tv: &Vec<char>, base: usize) -> (r: String)
    requires
        base <= tv@.len(),
    ensures
        r@ == title_of(tv@.skip(base as int)),
{
    let ghost rel = tv@.skip(base as int);
    let n = tv.len();
    let mut j: usize = base;
    while j < n && !amp_at(tv, j)
        invariant
            base <= j <= n,
            n == tv@.len(),
            rel == tv@.skip(base as int),
            forall|k: int| 0 <= k < j - base ==> rel[k] != '&',
        decreases n - j,
    {
        proof {
            assert(rel[j - base] == tv@[j as int]);
        }
        j += 1;
    }
    proof {
        lemma_first_index_of_props(rel, '&');
        let fi = first_index_of(rel, '&');
        if j < n {
            assert(rel[j - base] == tv@[j as int]);
        }
        assert(fi == j - base) by {
            if fi < j - base {
                assert(rel[fi] != '&');
            }
            if fi > j - base {
                assert(j < n);
                assert(rel[j - base] != '&');
            }
        }
    }
    let mut out: Vec<char> = Vec::new();
    let mut k: usize = base;
    while k < j
        invariant
            base <= k <= j <= n,
            n == tv@.len(),
            rel == tv@.skip(base as int),
            out@ == rel.take(k - base),
        decreases j - k,
    {
        out.push(tv[k]);
        proof {
            assert(rel[k - base] == tv@[k as int]);
            assert(rel.take(k - base).push(rel[k - base]) =~= rel.take(k + 1 - base));
        }
        k += 1;
    }
    proof {
        assert(out@ == title_of(rel));
    }
    chars_to_string(&out)
}

/// Whether the character at `j` is an ampersand.
fn amp_at(tv: &Vec<char>, j: usize) -> (b: bool)
    requires
        j < tv@.len(),
    ensures
        b == (tv@[j as int] == '&'),
{
    tv[j] == '&'
}

/// Tries the recognised page-path prefixes at position `base`.
fn page_from(tv: &Vec<char>, base: usize) -> (r: Option<String>)
    requires
        base <= tv@.len(),
    ensures
        r is Some <==> page_of_relative(tv@.skip(base as int)) is Some,
        r matches Some(t) ==> Some(t@) == page_of_relative(tv@.skip(base as int)),
{
    let ghost rel = tv@.skip(base as int);
    let n = tv.len();
    let p1 = to_chars("/wiki/");
    let p2 = to_chars("/index.php?title=");
    proof {
        lemma_contains_at_skip(tv@, base as int, 0, p1@);
        lemma_contains_at_skip(tv@, base as int, 0, p2@);
    }
    if has_prefix_at(tv, base, &p1) {
        proof {
            assert(rel.skip(p1@.len() as int) =~= tv@.skip(base + p1@.len()));
        }
        Some(title_from(tv, base + p1.len()))
    } else if has_prefix_at(tv, base, &p2) {
        proof {
            assert(rel.skip(p2@.len() as int) =~= tv@.skip(base + p2@.len()));
        }
        Some(title_from(tv, base + p2.len()))
    } else {
        None
    }
}

/// The page title a URL points at, when it is a link into the wiki.
pub fn is_pagelink(target: &str) -> (r: Option<String>)
    ensures
        r is Some <==> pagelink_of(target@) is Some,
        r matches Some(t) ==> Some(t@) == pagelink_of(target@),
{
    let tv = to_chars(target);
    let d1 = to_chars("https://de.komapedia.org");
    let d2 = to_chars("https://komapedia.org");
    let d3 = to_chars("https://www.komapedia.org");
    proof {
        lemma_contains_at_skip(tv@, 0, 0, d1@);
        lemma_contains_at_skip(tv@, 0, 0, d2@);
        lemma_contains_at_skip(tv@, 0, 0, d3@);
        assert(tv@.skip(0) =~= tv@);
    }
    if has_prefix_at(&tv, 0, &d1) {
        page_from(&tv, d1.len())
    } else if has_prefix_at(&tv, 0, &d2) {
        page_from(&tv, d2.len())
    } else if has_prefix_at(&tv, 0, &d3) {
        page_from(&tv, d3.len())
    } else {
        None
    }
}

/// Renders a labelled link as wiki markup.
pub fn format_link(label: String, target: &Option<String>) -> (r: String)
    ensures
        r@ == link_markup(label@, opt_str_view(*target)),
{
    match target {
        None => label,
        Some(link) => {
            match is_pagelink(link.as_str()) {
                Some(page) => {
                    let mut r = String::from_str("[[");
                    r.append(page.as_str());
                    r.append("|");
                    r.append(label.as_str());
                    r.append("]]");
                    proof {
                        assert(r@ =~= "[["@ + page@ + "|"@ + label@ + "]]"@);
                    }
                    r
                },
                None => {
                    let mut r = String::from_str("[");
                    r.append(link.as_str());
                    r.append(" ");
                    r.append(label.as_str());
                    r.append("]");
                    proof {
                        assert(r@ =~= "["@ + link@ + " "@ + label@ + "]"@);
                    }
                    r
                },
            }
        },
    }
}

/// The wiki page of a published event.
pub fn wikipage(event: EventId) -> (r: Option<String>)
    ensures
        r is Some <==> event_page(event) is Some,
        r matches Some(p) ==> Some(p@) == event_page(event),
{
    if event.0 == EVENT_KOMA92 {
        Some(String::from_str("KoMa_92"))
    } else {
        None
    }
}

/// Puts the display prefix in front of a name that does not yet carry it.
pub fn with_prefix(name: String) -> (r: String)
    ensures
        r@ == with_prefix_spec(name@),
{
    let chars = to_chars(name.as_str());
    let p = to_chars("AK ");
    proof {
        reveal_strlit("AK ");
        assert(p@ =~= ak_prefix());
    }
    if has_prefix_at(&chars, 0, &p) {
        proof {
            assert(chars@.skip(0) =~= chars@);
        }
        name
    } else {
        let mut r = String::from_str("AK ");
        r.append(name.as_str());
        r
    }
}

/// The title of a page under a session's own page, when the target is an
/// internal link below the session's canonical title (spaces normalised to
/// the wiki's word separator).
pub open spec fn subpage_of(target: Seq<char>, event: EventId, short: Seq<char>) -> Option<
    Seq<char>,
> {
    match crate::model::ak_page_title(event, short) {
        None => None,
        Some(page) => {
            let prefix = space_to_underscore(page + seq!['/']);
            match pagelink_of(target) {
                None => None,
                Some(t) => if contains_at(t, 0, prefix) {
                    Some(t.skip(prefix.len() as int))
                } else {
                    None
                },
            }
        },
    }
}

/// Extracts what follows a session's canonical title in a wiki link.
pub fn is_subpage(target: &str, event: EventId, ak: &crate::model::AK) -> (r: Option<String>)
    ensures
        r is Some <==> subpage_of(target@, event, ak.short_name@) is Some,
        r matches Some(t) ==> Some(t@) == subpage_of(target@, event, ak.short_name@),
{
    let page = match ak.wikipage(event) {
        None => {
            return None;
        },
        Some(p) => p,
    };
    let mut pref = page;
    pref.append("/");
    proof {
        reveal_strlit("/");
        assert("/"@ =~= seq!['/']);
    }
    let prefix = normalize_title(pref.as_str());
    let t = match is_pagelink(target) {
        None => {
            return None;
        },
        Some(t) => t,
    };
    let tv = to_chars(t.as_str());
    let pv = to_chars(prefix.as_str());
    if has_prefix_at(&tv, 0, &pv) {
        let m = tv.len();
        let k0 = pv.len();
        let mut out: Vec<char> = Vec::new();
        let mut k: usize = k0;
        while k < m
            invariant
                k0 <= k <= m,
                m == tv@.len(),
                out@ == tv@.subrange(k0 as int, k as int),
            decreases m - k,
        {
            out.push(tv[k]);
            proof {
                assert(tv@.subrange(k0 as int, k as int).push(tv@[k as int]) =~= tv@.subrange(
                    k0 as int,
                    k + 1,
                ));
            }
            k += 1;
        }
        proof {
            assert(out@ =~= tv@.skip(k0 as int));
        }
        Some(chars_to_string(&out))
    } else {
        None
    }
}

/// Normalises a page title to the wiki's word-separator convention.
pub fn normalize_title(s: &str) -> (r: String)
    ensures
        r@ == space_to_underscore(s@),
{
    let chars = to_chars(s);
    let n = chars.len();
    let mut out: Vec<char> = Vec::new();
    let mut i: usize = 0;
    while i < n
        invariant
            i <= n,
            n == chars@.len(),
            chars@ == s@,
            out@.len() == i,
            forall|j: int|
                0 <= j < i ==> out@[j] == (if s@[j] == ' ' {
                    '_'
                } else {
                    s@[j]
                }),
        decreases n - i,
    {
        let c = chars[i];
        if c == ' ' {
            out.push('_');
        } else {
            out.push(c);
        }
        i += 1;
    }
    proof {
        assert forall|j: int| 0 <= j < n implies out@[j] == space_to_underscore(s@)[j] by {
            assert(space_to_underscore(s@)[j] == (if s@[j] == ' ' {
                '_'
            } else {
                s@[j]
            }));
        }
        assert(out@ =~= space_to_underscore(s@));
    }
    chars_to_string(&out)
}

} // verus!
