//! The resolved per-event model: categories and owners stripped to what the
//! renderer needs, and sessions ("AKs") cross-referenced against them, with
//! their classification flags computed once at resolution time.

use vstd::prelude::*;
use crate::aktool;
use crate::aktool::{
    EventId, spec_is_exchange, spec_is_input, spec_is_output, spec_is_talk, spec_is_fun,
    spec_is_koma, MILLIHOURS_PER_SLOT_UNIT,
};
use crate::duration::sat_add;
use crate::idmap::IdMap;
use crate::komapedia::{
    with_prefix, with_prefix_spec, format_link, link_markup, opt_str_view, event_page,
};
use crate::markup::{escape, escape_seq};
use crate::duration::{format_duration, duration_str};
use crate::text::{sort_strings, join_strings, views_of, sort_lex, join_sep};

verus! {

/// Why aggregating one event failed: a referential-integrity violation in
/// the source data.  Other events are unaffected.
#[derive(Debug, PartialEq, Eq, Structural, Copy, Clone)]
pub enum AggregationError {
    /// An event id occurs in some collection but lacks categories, owners
    /// or sessions entirely.
    UnknownEvent(EventId),
    /// A session references a category the event does not have.
    UnknownCategory(aktool::CategoryId),
    /// A session references an owner the event does not have.
    UnknownOwner(aktool::OwnerId),
    /// A slot references a session the event does not have.
    UnknownSession(aktool::AKId),
}

/// What the renderer keeps of a category.
#[derive(Debug)]
pub struct Category {
    pub name: String,
    pub description: String,
}

impl Clone for Category {
    fn clone(&self) -> (r: Self)
        ensures
            r == *self,
    {
        Category { name: self.name.clone(), description: self.description.clone() }
    }
}

impl From<aktool::Category> for Category {
    fn from(value: aktool::Category) -> (r: Self) {
        Category { name: value.name, description: value.description }
    }
}

impl vstd::std_specs::convert::FromSpecImpl<aktool::Category> for Category {
    open spec fn obeys_from_spec() -> bool {
        true
    }

    open spec fn from_spec(v: aktool::Category) -> Self {
        Category { name: v.name, description: v.description }
    }
}

/// A category rendered for display: its name, then its description in
/// parentheses.
pub open spec fn category_markup(c: Category) -> Seq<char> {
    c.name@ + " ("@ + c.description@ + ")"@
}

impl Category {
    pub fn rendered(&self) -> (r: String)
        ensures
            r@ == category_markup(*self),
    {
        let mut r = self.name.clone();
        r.append(" (");
        r.append(self.description.as_str());
        r.append(")");
        proof {
            assert(r@ =~= category_markup(*self));
        }
        r
    }
}

/// What the renderer keeps of an owner.  Empty institutions and links from
/// the wire are normalised to absent.
#[derive(Debug)]
pub struct Owner {
    pub name: String,
    pub institution: Option<String>,
    pub link: Option<String>,
}

impl Clone for Owner {
    fn clone(&self) -> (r: Self)
        ensures
            r == *self,
    {
        Owner {
            name: self.name.clone(),
            institution: match &self.institution {
                Some(s) => Some(s.clone()),
                None => None,
            },
            link: match &self.link {
                Some(s) => Some(s.clone()),
                None => None,
            },
        }
    }
}

impl From<aktool::Owner> for Owner {
    fn from(value: aktool::Owner) -> (r: Self) {
        Owner {
            name: value.name,
            institution: if value.institution.as_str().is_empty() {
                None
            } else {
                Some(value.institution)
            },
            link: if value.link.as_str().is_empty() {
                None
            } else {
                Some(value.link)
            },
        }
    }
}

impl vstd::std_specs::convert::FromSpecImpl<aktool::Owner> for Owner {
    open spec fn obeys_from_spec() -> bool {
        true
    }

    open spec fn from_spec(v: aktool::Owner) -> Self {
        Owner {
            name: v.name,
            institution: if v.institution@.len() == 0 {
                None
            } else {
                Some(v.institution)
            },
            link: if v.link@.len() == 0 {
                None
            } else {
                Some(v.link)
            },
        }
    }
}

/// An owner's display label: the escaped name, with the escaped institution
/// in parentheses when there is one.
pub open spec fn owner_label(o: Owner) -> Seq<char> {
    match o.institution {
        None => escape_seq(o.name@),
        Some(inst) => escape_seq(o.name@) + " ("@ + escape_seq(inst@) + ")"@,
    }
}

/// An owner rendered for display: the label, linked when a link is known.
pub open spec fn owner_markup(o: Owner) -> Seq<char> {
    link_markup(owner_label(o), opt_str_view(o.link))
}

impl Owner {
    pub fn rendered(&self) -> (r: String)
        ensures
            r@ == owner_markup(*self),
    {
        let label = match &self.institution {
            None => escape(self.name.as_str()),
            Some(inst) => {
                let mut l = escape(self.name.as_str());
                l.append(" (");
                let e = escape(inst.as_str());
                l.append(e.as_str());
                l.append(")");
                proof {
                    assert(l@ =~= owner_label(*self));
                }
                l
            },
        };
        format_link(label, &self.link)
    }
}

/// A session resolved against its event: names carry the display prefix,
/// owners and category are held by value, the classification flags are
/// fixed.  `duration` is in thousandths of an hour and starts at zero.
#[derive(Debug)]
pub struct AK {
    pub name: String,
    pub short_name: String,
    pub description: String,
    pub result: String,
    pub owners: Vec<Owner>,
    pub category: Category,
    pub duration: u64,
    pub exchange: bool,
    pub input: bool,
    pub output: bool,
    pub reso: bool,
    pub talk: bool,
    pub fun: bool,
    pub koma: bool,
}

/// The comma-joined type tag, one label for each set flag, in fixed order.
pub open spec fn append_tag(acc: Seq<char>, flag: bool, label: Seq<char>) -> Seq<char> {
    if flag {
        if acc.len() == 0 {
            label
        } else {
            acc + seq![','] + label
        }
    } else {
        acc
    }
}

pub open spec fn type_tag(a: AK) -> Seq<char> {
    append_tag(
        append_tag(
            append_tag(
                append_tag(
                    append_tag(
                        append_tag(Seq::empty(), a.exchange, "Austausch"@),
                        a.input,
                        "Input"@,
                    ),
                    a.output,
                    "Output"@,
                ),
                a.reso,
                "Reso"@,
            ),
            a.talk,
            "Vortrag"@,
        ),
        a.fun,
        "Spaß"@,
    )
}

/// The owner list rendered for display: each owner's markup, sorted
/// lexicographically by the rendered string, joined with `", "`.
pub open spec fn owners_markup_views(owners: Seq<Owner>) -> Seq<Seq<char>> {
    owners.map_values(|o: Owner| owner_markup(o))
}

pub open spec fn format_owners_spec(owners: Seq<Owner>) -> Seq<char> {
    join_sep(sort_lex(owners_markup_views(owners)), ", "@)
}

/// The attribute block of a session: a fixed-name template with the
/// attributes in fixed order, optional ones omitted when empty.  Free text
/// is escaped; the result link is escaped and rendered through the link
/// formatter, so a wiki URL becomes an internal link.
pub open spec fn ak_markup(a: AK) -> Seq<char> {
    let tag = type_tag(a);
    let ow = format_owners_spec(a.owners@);
    "{{KoMa Externer AK aus aktool\n"@ + "|Name="@ + escape_seq(a.name@) + "\n"@ + (if tag.len()
        == 0 {
        Seq::<char>::empty()
    } else {
        "|Typ="@ + tag + "\n"@
    }) + (if ow.len() == 0 {
        Seq::<char>::empty()
    } else {
        "|Leitung="@ + ow + "\n"@
    }) + "|Dauer="@ + duration_str(a.duration) + "\n"@ + (if a.description@.len() == 0 {
        Seq::<char>::empty()
    } else {
        "|Beschreibung="@ + escape_seq(a.description@) + "\n"@
    }) + (if a.result@.len() == 0 {
        Seq::<char>::empty()
    } else {
        "|Ergebnis="@ + link_markup(escape_seq(a.result@), Some(a.result@)) + "\n"@
    }) + "}}\n"@
}

/// A session's full publishable text: the generated-by-automation marker
/// template, then the attribute block.
pub open spec fn ak_wikitext(a: AK) -> Seq<char> {
    "{{Seite automatisch erzeugt von aksync}}\n"@ + ak_markup(a)
}

/// The canonical wiki page title of a session: the event's page, a slash,
/// the prefixed short name.
pub open spec fn ak_page_title(event: EventId, short: Seq<char>) -> Option<Seq<char>> {
    match event_page(event) {
        Some(ep) => Some(ep + seq!['/'] + short),
        None => None,
    }
}

fn append_tag_exec(acc: String, flag: bool, label: &str) -> (r: String)
    ensures
        r@ == append_tag(acc@, flag, label@),
{
    if flag {
        if acc.as_str().is_empty() {
            String::from_str(label)
        } else {
            let mut a = acc;
            a.append(",");
            a.append(label);
            proof {
                reveal_strlit(",");
                assert(","@ =~= seq![',']);
            }
            a
        }
    } else {
        acc
    }
}

impl AK {
    /// Resolves a raw session: prefixes its names, adopts the owner and
    /// category values it references, computes the classification flags,
    /// and starts the duration at zero.
    pub fn from_aktool(ak: aktool::AK, category: Category, owners: Vec<Owner>) -> (r: AK)
        ensures
            r.name@ == with_prefix_spec(ak.name@),
            r.short_name@ == with_prefix_spec(ak.short_name@),
            r.description == ak.description,
            r.result == ak.protocol_link,
            r.owners == owners,
            r.category == category,
            r.duration == 0,
            r.exchange == spec_is_exchange(ak.category),
            r.input == spec_is_input(ak.category),
            r.output == spec_is_output(ak.category),
            r.reso == ak.reso,
            r.talk == spec_is_talk(ak.category),
            r.fun == spec_is_fun(ak.category),
            r.koma == spec_is_koma(ak.types@),
    {
        let exchange = ak.is_exchange();
        let input = ak.is_input();
        let output = ak.is_output();
        let reso = ak.is_reso();
        let talk = ak.is_talk();
        let fun = ak.is_fun();
        let koma = ak.is_koma();
        AK {
            name: with_prefix(ak.name),
            short_name: with_prefix(ak.short_name),
            description: ak.description,
            result: ak.protocol_link,
            owners,
            category,
            duration: 0,
            exchange,
            input,
            output,
            reso,
            talk,
            fun,
            koma,
        }
    }

    /// Whether the session is eligible for wiki publication.
    pub fn is_koma(&self) -> (r: bool)
        ensures
            r == self.koma,
    {
        self.koma
    }

    pub fn name(&self) -> (r: &str)
        ensures
            r@ == self.name@,
    {
        self.name.as_str()
    }

    /// The canonical wiki page title of this session within an event.
    pub fn wikipage(&self, event: EventId) -> (r: Option<String>)
        ensures
            r is Some <==> event_page(event) is Some,
            r matches Some(t) ==> Some(t@) == ak_page_title(event, self.short_name@),
    {
        match crate::komapedia::wikipage(event) {
            None => None,
            Some(p) => {
                let mut t = p;
                t.append("/");
                t.append(self.short_name.as_str());
                proof {
                    reveal_strlit("/");
                    assert("/"@ =~= seq!['/']);
                }
                Some(t)
            },
        }
    }

    /// The comma-joined labels of the set classification flags.
    pub fn format_type(&self) -> (r: String)
        ensures
            r@ == type_tag(*self),
    {
        let r = append_tag_exec(String::new(), self.exchange, "Austausch");
        let r = append_tag_exec(r, self.input, "Input");
        let r = append_tag_exec(r, self.output, "Output");
        let r = append_tag_exec(r, self.reso, "Reso");
        let r = append_tag_exec(r, self.talk, "Vortrag");
        let r = append_tag_exec(r, self.fun, "Spaß");
        r
    }

    /// The rendered owners, sorted by their rendered string, joined with
    /// `", "`.
    pub fn format_owners(&self) -> (r: String)
        ensures
            r@ == format_owners_spec(self.owners@),
    {
        let mut rendered: Vec<String> = Vec::new();
        let n = self.owners.len();
        let mut i: usize = 0;
        while i < n
            invariant
                i <= n,
                n == self.owners@.len(),
                views_of(rendered@) == owners_markup_views(self.owners@.take(i as int)),
            decreases n - i,
        {
            let ghost pre = rendered@;
            let s = self.owners[i].rendered();
            rendered.push(s);
            proof {
                assert(pre.len() == i) by {
                    assert(views_of(pre).len() == pre.len());
                    assert(owners_markup_views(self.owners@.take(i as int)).len() == i);
                }
                assert(rendered@ == pre.push(s));
                assert forall|j: int| 0 <= j <= i implies views_of(rendered@)[j]
                    == owners_markup_views(self.owners@.take(i + 1))[j] by {
                    assert(views_of(rendered@)[j] == rendered@[j]@);
                    assert(owners_markup_views(self.owners@.take(i + 1))[j] == owner_markup(
                        self.owners@.take(i + 1)[j],
                    ));
                    assert(self.owners@.take(i + 1)[j] == self.owners@[j]);
                    if j < i {
                        assert(rendered@[j] == pre[j]);
                        assert(views_of(pre)[j] == pre[j]@);
                        assert(owners_markup_views(self.owners@.take(i as int))[j] == owner_markup(
                            self.owners@.take(i as int)[j],
                        ));
                        assert(self.owners@.take(i as int)[j] == self.owners@[j]);
                    } else {
                        assert(rendered@[j] == s);
                    }
                }
                assert(views_of(rendered@) =~= owners_markup_views(self.owners@.take(i + 1)));
            }
            i += 1;
        }
        proof {
            assert(self.owners@.take(n as int) =~= self.owners@);
        }
        let sorted = sort_strings(rendered);
        join_strings(&sorted, ", ")
    }

    /// The attribute block of this session as template markup.
    #[verifier::rlimit(100)]
    pub fn markup(&self) -> (r: String)
        ensures
            r@ == ak_markup(*self),
    {
        let mut r = String::from_str("{{KoMa Externer AK aus aktool\n");
        r.append("|Name=");
        let en = escape(self.name.as_str());
        r.append(en.as_str());
        r.append("\n");
        let tag = self.format_type();
        if !tag.as_str().is_empty() {
            r.append("|Typ=");
            r.append(tag.as_str());
            r.append("\n");
        }
        let ow = self.format_owners();
        if !ow.as_str().is_empty() {
            r.append("|Leitung=");
            r.append(ow.as_str());
            r.append("\n");
        }
        r.append("|Dauer=");
        let d = format_duration(self.duration);
        r.append(d.as_str());
        r.append("\n");
        if !self.description.as_str().is_empty() {
            r.append("|Beschreibung=");
            let ed = escape(self.description.as_str());
            r.append(ed.as_str());
            r.append("\n");
        }
        if !self.result.as_str().is_empty() {
            r.append("|Ergebnis=");
            let target = Some(self.result.clone());
            let er = format_link(escape(self.result.as_str()), &target);
            r.append(er.as_str());
            r.append("\n");
        }
        r.append("}}\n");
        proof {
            assert(r@ =~= ak_markup(*self));
        }
        r
    }

    /// The full publishable text: the generated-by-automation marker, then
    /// the attribute block.
    pub fn wikitext(&self) -> (r: String)
        ensures
            r@ == ak_wikitext(*self),
    {
        let mut r = String::from_str("{{Seite automatisch erzeugt von aksync}}\n");
        let m = self.markup();
        r.append(m.as_str());
        r
    }
}

/// What a raw category resolves to.
pub open spec fn category_of_raw(v: aktool::Category) -> Category {
    Category { name: v.name, description: v.description }
}

/// What a raw owner resolves to: empty institution and link become absent.
pub open spec fn owner_of_raw(v: aktool::Owner) -> Owner {
    Owner {
        name: v.name,
        institution: if v.institution@.len() == 0 {
            None
        } else {
            Some(v.institution)
        },
        link: if v.link@.len() == 0 {
            None
        } else {
            Some(v.link)
        },
    }
}

/// The category map a raw sequence builds, later records winning.
pub open spec fn categories_map(cs: Seq<aktool::Category>) -> Map<u64, Category>
    decreases cs.len(),
{
    if cs.len() == 0 {
        Map::empty()
    } else {
        categories_map(cs.drop_last()).insert(cs.last().id.0, category_of_raw(cs.last()))
    }
}

/// The owner map a raw sequence builds, later records winning.
pub open spec fn owners_map(os: Seq<aktool::Owner>) -> Map<u64, Owner>
    decreases os.len(),
{
    if os.len() == 0 {
        Map::empty()
    } else {
        owners_map(os.drop_last()).insert(os.last().id.0, owner_of_raw(os.last()))
    }
}

/// A session resolved against the given category and owner maps, with the
/// given duration: every field of `v` is pinned.
pub open spec fn ak_resolved_d(
    raw: aktool::AK,
    cats: Map<u64, Category>,
    owns: Map<u64, Owner>,
    v: AK,
    d: u64,
) -> bool {
    &&& v.name@ == with_prefix_spec(raw.name@)
    &&& v.short_name@ == with_prefix_spec(raw.short_name@)
    &&& v.description == raw.description
    &&& v.result == raw.protocol_link
    &&& cats.contains_key(raw.category.0)
    &&& v.category == cats[raw.category.0]
    &&& v.owners@.len() == raw.owners@.len()
    &&& forall|j: int|
        0 <= j < raw.owners@.len() ==> owns.contains_key(#[trigger] raw.owners@[j].0)
            && v.owners@[j] == owns[raw.owners@[j].0]
    &&& v.duration == d
    &&& v.exchange == spec_is_exchange(raw.category)
    &&& v.input == spec_is_input(raw.category)
    &&& v.output == spec_is_output(raw.category)
    &&& v.reso == raw.reso
    &&& v.talk == spec_is_talk(raw.category)
    &&& v.fun == spec_is_fun(raw.category)
    &&& v.koma == spec_is_koma(raw.types@)
}

/// A freshly resolved session: duration still zero.
pub open spec fn ak_resolved(
    raw: aktool::AK,
    cats: Map<u64, Category>,
    owns: Map<u64, Owner>,
    v: AK,
) -> bool {
    ak_resolved_d(raw, cats, owns, v, 0)
}

/// The same session with another duration.
pub open spec fn with_duration(a: AK, d: u64) -> AK {
    AK { duration: d, ..a }
}

/// What one slot contributes to its session's duration.
pub open spec fn slot_contrib(s: aktool::Slot) -> u64 {
    (s.duration * MILLIHOURS_PER_SLOT_UNIT) as u64
}

/// One event's aggregate: categories, owners and resolved sessions, each
/// keyed by its id.
pub struct Event {
    categories: IdMap<Category>,
    owners: IdMap<Owner>,
    aks: IdMap<AK>,
}

impl Event {
    /// Well-formedness of the three id maps.
    pub closed spec fn inv(&self) -> bool {
        self.categories.inv() && self.owners.inv() && self.aks.inv()
    }

    pub closed spec fn spec_categories(&self) -> Map<u64, Category> {
        self.categories@
    }

    pub closed spec fn spec_owners(&self) -> Map<u64, Owner> {
        self.owners@
    }

    pub closed spec fn spec_aks(&self) -> Map<u64, AK> {
        self.aks@
    }

    /// The sessions as an ordered entry sequence.
    pub closed spec fn aks_entries(&self) -> Seq<(u64, AK)> {
        self.aks.entries_view()
    }

    /// The session entries are the session map, in ascending id order.
    pub proof fn lemma_aks_entries(&self)
        requires
            self.inv(),
        ensures
            crate::idmap::entries_sorted(self.aks_entries()),
            forall|k: u64|
                self.spec_aks().contains_key(k) <==> exists|i: int|
                    0 <= i < self.aks_entries().len() && self.aks_entries()[i].0 == k,
            forall|i: int|
                0 <= i < self.aks_entries().len() ==> self.spec_aks().contains_key(
                    #[trigger] self.aks_entries()[i].0,
                ) && self.spec_aks()[self.aks_entries()[i].0] == self.aks_entries()[i].1,
    {
        self.aks.lemma_entries();
    }

    /// Builds an event from its raw categories and owners, later duplicate
    /// ids winning; the session map starts empty.
    pub fn new(categories: Vec<aktool::Category>, owners: Vec<aktool::Owner>) -> (r: Event)
        ensures
            r.inv(),
            r.spec_categories() == categories_map(categories@),
            r.spec_owners() == owners_map(owners@),
            r.spec_aks() == Map::<u64, AK>::empty(),
    {
        let ghost cs = categories@;
        let ghost os = owners@;
        let mut cm: IdMap<Category> = IdMap::new();
        let mut rem = categories;
        proof {
            assert(cs.take(0) =~= Seq::<aktool::Category>::empty());
            assert(cs.skip(0) =~= cs);
        }
        while rem.len() > 0
            invariant
                cm.inv(),
                rem@.len() <= cs.len(),
                rem@ == cs.skip(cs.len() - rem@.len()),
                cm@ == categories_map(cs.take(cs.len() - rem@.len())),
            decreases rem@.len(),
        {
            let ghost i = cs.len() - rem@.len();
            let c = rem.remove(0);
            let id = c.id;
            proof {
                assert(cs.skip(i)[0] == cs[i]);
                assert(c == cs[i]);
                assert(rem@ == cs.skip(i).remove(0));
                assert(cs.skip(i).remove(0) =~= cs.skip(i + 1));
            }
            let cat = Category::from(c);
            cm.insert(id.0, cat);
            proof {
                assert(cs.take(i + 1).drop_last() =~= cs.take(i));
                assert(cs.take(i + 1).last() == cs[i]);
                assert(categories_map(cs.take(i + 1)) == categories_map(cs.take(i)).insert(
                    cs[i].id.0,
                    category_of_raw(cs[i]),
                ));
            }
        }
        proof {
            assert(cs.take(cs.len() as int) =~= cs);
        }
        let mut om: IdMap<Owner> = IdMap::new();
        let mut orem = owners;
        proof {
            assert(os.take(0) =~= Seq::<aktool::Owner>::empty());
            assert(os.skip(0) =~= os);
        }
        while orem.len() > 0
            invariant
                om.inv(),
                orem@.len() <= os.len(),
                orem@ == os.skip(os.len() - orem@.len()),
                om@ == owners_map(os.take(os.len() - orem@.len())),
            decreases orem@.len(),
        {
            let ghost i = os.len() - orem@.len();
            let o = orem.remove(0);
            let id = o.id;
            proof {
                assert(os.skip(i)[0] == os[i]);
                assert(o == os[i]);
                assert(orem@ == os.skip(i).remove(0));
                assert(os.skip(i).remove(0) =~= os.skip(i + 1));
            }
            let owner = Owner::from(o);
            om.insert(id.0, owner);
            proof {
                assert(os.take(i + 1).drop_last() =~= os.take(i));
                assert(os.take(i + 1).last() == os[i]);
                assert(owners_map(os.take(i + 1)) == owners_map(os.take(i)).insert(
                    os[i].id.0,
                    owner_of_raw(os[i]),
                ));
            }
        }
        proof {
            assert(os.take(os.len() as int) =~= os);
        }
        Event { categories: cm, owners: om, aks: IdMap::new() }
    }

    /// Resolves one raw session against this event and stores it under its
    /// id, overwriting any previous session with that id.  Fails, leaving
    /// the event unchanged, when the category or an owner is unknown.
    pub fn add_ak(&mut self, ak: aktool::AK) -> (r: Result<(), AggregationError>)
        requires
            old(self).inv(),
        ensures
            final(self).inv(),
            final(self).spec_categories() == old(self).spec_categories(),
            final(self).spec_owners() == old(self).spec_owners(),
            r is Ok <==> old(self).spec_categories().contains_key(ak.category.0) && (forall|j: int|
                0 <= j < ak.owners@.len() ==> old(self).spec_owners().contains_key(
                    #[trigger] ak.owners@[j].0,
                )),
            match r {
                Ok(()) => {
                    &&& final(self).spec_aks().contains_key(ak.id.0)
                    &&& ak_resolved(
                        ak,
                        old(self).spec_categories(),
                        old(self).spec_owners(),
                        final(self).spec_aks()[ak.id.0],
                    )
                    &&& final(self).spec_aks() == old(self).spec_aks().insert(
                        ak.id.0,
                        final(self).spec_aks()[ak.id.0],
                    )
                },
                Err(AggregationError::UnknownCategory(c)) => c == ak.category
                    && !old(self).spec_categories().contains_key(c.0)
                    && final(self).spec_aks() == old(self).spec_aks(),
                Err(AggregationError::UnknownOwner(o)) => {
                    &&& old(self).spec_categories().contains_key(ak.category.0)
                    &&& !old(self).spec_owners().contains_key(o.0)
                    &&& exists|j: int|
                        0 <= j < ak.owners@.len() && #[trigger] ak.owners@[j] == o && (forall|
                            k: int,
                        |
                            0 <= k < j ==> old(self).spec_owners().contains_key(
                                #[trigger] ak.owners@[k].0,
                            ))
                    &&& final(self).spec_aks() == old(self).spec_aks()
                },
                Err(_) => false,
            },
    {
        let id = ak.id;
        let cat = match self.categories.get(ak.category.0) {
            None => {
                return Err(AggregationError::UnknownCategory(ak.category));
            },
            Some(c) => c.clone(),
        };
        let mut owners_v: Vec<Owner> = Vec::new();
        let n = ak.owners.len();
        let mut j: usize = 0;
        while j < n
            invariant
                self.inv(),
                self.spec_categories().contains_key(ak.category.0),
                j <= n,
                n == ak.owners@.len(),
                owners_v@.len() == j,
                forall|k: int|
                    0 <= k < j ==> self.spec_owners().contains_key(#[trigger] ak.owners@[k].0)
                        && owners_v@[k] == self.spec_owners()[ak.owners@[k].0],
            decreases n - j,
        {
            let oid = ak.owners[j];
            match self.owners.get(oid.0) {
                None => {
                    proof {
                        assert(ak.owners@[j as int] == oid);
                    }
                    return Err(AggregationError::UnknownOwner(oid));
                },
                Some(o) => {
                    owners_v.push(o.clone());
                },
            }
            j += 1;
        }
        let resolved = AK::from_aktool(ak, cat, owners_v);
        self.aks.insert(id.0, resolved);
        Ok(())
    }

    /// Adds a slot's duration onto the session it references.  Fails,
    /// leaving the event unchanged, when the session is unknown.
    pub fn add_slot(&mut self, slot: &aktool::Slot) -> (r: Result<(), AggregationError>)
        requires
            old(self).inv(),
        ensures
            final(self).inv(),
            final(self).spec_categories() == old(self).spec_categories(),
            final(self).spec_owners() == old(self).spec_owners(),
            r is Ok <==> old(self).spec_aks().contains_key(slot.ak.0),
            match r {
                Ok(()) => final(self).spec_aks() == old(self).spec_aks().insert(
                    slot.ak.0,
                    with_duration(
                        old(self).spec_aks()[slot.ak.0],
                        sat_add(old(self).spec_aks()[slot.ak.0].duration, slot_contrib(*slot)),
                    ),
                ),
                Err(AggregationError::UnknownSession(id)) => id == slot.ak
                    && final(self).spec_aks() == old(self).spec_aks(),
                Err(_) => false,
            },
    {
        match self.aks.remove(slot.ak.0) {
            None => Err(AggregationError::UnknownSession(slot.ak)),
            Some(v) => {
                let ghost v0 = v;
                let mut v = v;
                let add = slot.duration * MILLIHOURS_PER_SLOT_UNIT;
                v.duration = if v.duration > u64::MAX - add {
                    u64::MAX
                } else {
                    v.duration + add
                };
                proof {
                    assert(v == with_duration(v0, sat_add(v0.duration, slot_contrib(*slot))));
                }
                self.aks.insert(slot.ak.0, v);
                proof {
                    assert(old(self).spec_aks().remove(slot.ak.0).insert(slot.ak.0, v)
                        =~= old(self).spec_aks().insert(slot.ak.0, v));
                }
                Ok(())
            },
        }
    }

    /// The session ids, ascending.
    pub fn aks(&self) -> (r: Vec<u64>)
        requires
            self.inv(),
        ensures
            r@.len() == self.aks_entries().len(),
            forall|i: int| 0 <= i < r@.len() ==> r@[i] == self.aks_entries()[i].0,
    {
        let n = self.aks.len();
        let mut r: Vec<u64> = Vec::new();
        let mut i: usize = 0;
        while i < n
            invariant
                i <= n,
                n == self.aks.entries_view().len(),
                r@.len() == i,
                forall|j: int| 0 <= j < i ==> r@[j] == self.aks.entries_view()[j].0,
            decreases n - i,
        {
            let e = self.aks.entry_at(i);
            r.push(e.0);
            i += 1;
        }
        r
    }

    /// The session stored under an id.
    pub fn ak(&self, id: u64) -> (r: Option<&AK>)
        requires
            self.inv(),
        ensures
            match r {
                Some(v) => self.spec_aks().contains_key(id) && *v == self.spec_aks()[id],
                None => !self.spec_aks().contains_key(id),
            },
    {
        self.aks.get(id)
    }
}

/// Some session in the sequence has this id.
pub open spec fn some_session_id(fs: Seq<aktool::AK>, sid: u64) -> bool {
    exists|i: int| 0 <= i < fs.len() && #[trigger] fs[i].id.0 == sid
}

/// The last session with this id: the one that wins on duplicates.
pub open spec fn last_session_with(fs: Seq<aktool::AK>, sid: u64) -> aktool::AK
    decreases fs.len(),
{
    if fs.len() == 0 {
        fs[0]
    } else if fs.last().id.0 == sid {
        fs.last()
    } else {
        last_session_with(fs.drop_last(), sid)
    }
}

/// The session's references all resolve in the given maps.
pub open spec fn session_resolvable(
    s: aktool::AK,
    cats: Map<u64, Category>,
    owns: Map<u64, Owner>,
) -> bool {
    cats.contains_key(s.category.0) && (forall|j: int|
        0 <= j < s.owners@.len() ==> owns.contains_key(#[trigger] s.owners@[j].0))
}

pub open spec fn all_resolvable(
    fs: Seq<aktool::AK>,
    cats: Map<u64, Category>,
    owns: Map<u64, Owner>,
) -> bool {
    forall|i: int| 0 <= i < fs.len() ==> session_resolvable(#[trigger] fs[i], cats, owns)
}

/// Every slot references a session that exists.
pub open spec fn all_slots_match(fl: Seq<aktool::Slot>, fs: Seq<aktool::AK>) -> bool {
    forall|i: int| 0 <= i < fl.len() ==> some_session_id(fs, #[trigger] fl[i].ak.0)
}

/// The saturating sum of what the slots contribute to this session.
pub open spec fn slot_sum(fl: Seq<aktool::Slot>, sid: u64) -> u64
    decreases fl.len(),
{
    if fl.len() == 0 {
        0
    } else {
        sat_add(
            slot_sum(fl.drop_last(), sid),
            if fl.last().ak.0 == sid {
                slot_contrib(fl.last())
            } else {
                0
            },
        )
    }
}

/// What one slot adds onto the given session: its contribution, or zero.
pub open spec fn slot_part(sl: aktool::Slot, sid: u64) -> u64 {
    if sl.ak.0 == sid {
        slot_contrib(sl)
    } else {
        0
    }
}

proof fn lemma_sat_add_assoc(a: u64, b: u64, c: u64)
    ensures
        sat_add(sat_add(a, b), c) == sat_add(a, sat_add(b, c)),
{
}

/// Removing one slot splits its part off the saturating sum.
proof fn lemma_slot_sum_remove(fl: Seq<aktool::Slot>, i: int, sid: u64)
    requires
        0 <= i < fl.len(),
    ensures
        slot_sum(fl, sid) == sat_add(slot_sum(fl.remove(i), sid), slot_part(fl[i], sid)),
    decreases fl.len(),
{
    if i == fl.len() - 1 {
        assert(fl.remove(i) =~= fl.drop_last());
    } else {
        let d = fl.drop_last();
        lemma_slot_sum_remove(d, i, sid);
        assert(fl.remove(i).drop_last() =~= d.remove(i));
        assert(fl.remove(i).last() == fl.last());
        assert(d[i] == fl[i]);
        assert(slot_sum(fl, sid) == sat_add(slot_sum(d, sid), slot_part(fl.last(), sid)));
        assert(slot_sum(fl.remove(i), sid) == sat_add(
            slot_sum(d.remove(i), sid),
            slot_part(fl.last(), sid),
        ));
        lemma_sat_add_assoc(slot_sum(d.remove(i), sid), slot_part(fl[i], sid), slot_part(
            fl.last(),
            sid,
        ));
        lemma_sat_add_assoc(slot_sum(d.remove(i), sid), slot_part(fl.last(), sid), slot_part(
            fl[i],
            sid,
        ));
    }
}

/// Duration accumulation is order-independent: applying the same multiset
/// of slots in any order gives every session the same duration.
pub proof fn lemma_slot_sum_permutation(s1: Seq<aktool::Slot>, s2: Seq<aktool::Slot>, sid: u64)
    requires
        s1.to_multiset() == s2.to_multiset(),
    ensures
        slot_sum(s1, sid) == slot_sum(s2, sid),
    decreases s1.len(),
{
    s1.to_multiset_ensures();
    s2.to_multiset_ensures();
    if s1.len() == 0 {
        assert(s2.len() == 0);
    } else {
        let x = s1.last();
        let d1 = s1.drop_last();
        assert(s1 =~= d1.push(x));
        d1.to_multiset_ensures();
        assert(s1.to_multiset() == d1.to_multiset().insert(x));
        assert(s1.to_multiset().count(x) > 0);
        assert(s2.to_multiset().count(x) > 0);
        assert(s2.contains(x));
        let i = choose|i: int| 0 <= i < s2.len() && s2[i] == x;
        lemma_slot_sum_remove(s2, i, sid);
        assert(s2.remove(i).to_multiset() =~= s2.to_multiset().remove(x));
        assert(d1.to_multiset() =~= s1.to_multiset().remove(x));
        lemma_slot_sum_permutation(d1, s2.remove(i), sid);
        assert(slot_sum(s1, sid) == sat_add(slot_sum(d1, sid), slot_part(x, sid)));
    }
}

/// Insertion of a session before the first session with an id at least its
/// own: stable, so among equal ids the input order is kept.
pub open spec fn insert_session(x: aktool::AK, s: Seq<aktool::AK>) -> Seq<aktool::AK>
    decreases s.len(),
{
    if s.len() == 0 {
        seq![x]
    } else if x.id.0 <= s[0].id.0 {
        seq![x] + s
    } else {
        seq![s[0]] + insert_session(x, s.skip(1))
    }
}

/// The sessions sorted ascending by id, stably: the resolution order that
/// the aggregation uses.
pub open spec fn sort_sessions(s: Seq<aktool::AK>) -> Seq<aktool::AK>
    decreases s.len(),
{
    if s.len() == 0 {
        Seq::empty()
    } else {
        insert_session(s[0], sort_sessions(s.skip(1)))
    }
}

/// Scanning past every strictly smaller id realises `insert_session`.
proof fn lemma_insert_session_at(x: aktool::AK, s: Seq<aktool::AK>, p: int)
    requires
        0 <= p <= s.len(),
        forall|j: int| 0 <= j < p ==> (#[trigger] s[j].id).0 < x.id.0,
        p < s.len() ==> x.id.0 <= s[p].id.0,
    ensures
        insert_session(x, s) == s.insert(p, x),
    decreases s.len(),
{
    if s.len() == 0 {
        assert(s.insert(0, x) =~= seq![x]);
    } else if x.id.0 <= s[0].id.0 {
        assert(p == 0);
        assert(s.insert(0, x) =~= seq![x] + s);
    } else {
        assert(p > 0);
        assert forall|j: int| 0 <= j < p - 1 implies (#[trigger] s.skip(1)[j].id).0 < x.id.0 by {
            assert(s.skip(1)[j] == s[j + 1]);
        }
        if p - 1 < s.skip(1).len() {
            assert(s.skip(1)[p - 1] == s[p]);
        }
        lemma_insert_session_at(x, s.skip(1), p - 1);
        assert(seq![s[0]] + s.skip(1).insert(p - 1, x) =~= s.insert(p, x));
    }
}

/// Whether the session at `p` has an id below `xid`.
fn session_id_lt_at(s: &Vec<aktool::AK>, p: usize, xid: u64) -> (b: bool)
    requires
        p < s@.len(),
    ensures
        b == (s@[p as int].id.0 < xid),
{
    s[p].id.0 < xid
}

/// Sorts sessions ascending by id, stably, so that resolution can walk
/// them in ascending id order with later input still winning among equal
/// ids.
fn sort_sessions_exec(v: Vec<aktool::AK>) -> (r: Vec<aktool::AK>)
    ensures
        r@ == sort_sessions(v@),
        r@.len() == v@.len(),
{
    let ghost vs = v@;
    let mut out: Vec<aktool::AK> = Vec::new();
    let mut rem = v;
    let n = rem.len();
    proof {
        assert(vs.skip(n as int) =~= Seq::<aktool::AK>::empty());
        assert(out@ =~= sort_sessions(vs.skip(n as int)));
    }
    while rem.len() > 0
        invariant
            rem@.len() <= n,
            n == vs.len(),
            rem@ == vs.take(rem@.len() as int),
            out@ == sort_sessions(vs.skip(rem@.len() as int)),
            out@.len() == n - rem@.len(),
        decreases rem@.len(),
    {
        let ghost k = rem@.len() as int;
        let x = match rem.pop() {
            Some(x) => x,
            None => {
                proof {
                    assert(false);
                }
                return out;
            },
        };
        proof {
            assert(vs.take(k)[k - 1] == vs[k - 1]);
            assert(x == vs[k - 1]);
            assert(rem@ =~= vs.take(k - 1));
        }
        let ghost pre = out@;
        let m = out.len();
        let mut p: usize = 0;
        while p < m && session_id_lt_at(&out, p, x.id.0)
            invariant
                p <= m,
                m == out@.len(),
                out@ == pre,
                forall|j: int| 0 <= j < p ==> (#[trigger] out@[j].id).0 < x.id.0,
            decreases m - p,
        {
            p += 1;
        }
        proof {
            lemma_insert_session_at(x, pre, p as int);
        }
        out.insert(p, x);
        proof {
            let s_i = vs.skip(k - 1);
            assert(s_i[0] == vs[k - 1]);
            assert(s_i.skip(1) =~= vs.skip(k));
            assert(sort_sessions(s_i) == insert_session(s_i[0], sort_sessions(s_i.skip(1))));
        }
    }
    proof {
        assert(vs.skip(0) =~= vs);
    }
    out
}

/// The first owner reference the map lacks, or the owner count when all
/// resolve.
pub open spec fn first_missing_owner(owners: Seq<aktool::OwnerId>, om: Map<u64, Owner>) -> int
    decreases owners.len(),
{
    if owners.len() == 0 {
        0
    } else if !om.contains_key(owners[0].0) {
        0
    } else {
        1 + first_missing_owner(owners.skip(1), om)
    }
}

proof fn lemma_first_missing_owner_props(owners: Seq<aktool::OwnerId>, om: Map<u64, Owner>)
    ensures
        0 <= first_missing_owner(owners, om) <= owners.len(),
        forall|j: int|
            0 <= j < first_missing_owner(owners, om) ==> om.contains_key(
                (#[trigger] owners[j]).0,
            ),
        first_missing_owner(owners, om) < owners.len() ==> !om.contains_key(
            owners[first_missing_owner(owners, om)].0,
        ),
    decreases owners.len(),
{
    if owners.len() > 0 && om.contains_key(owners[0].0) {
        lemma_first_missing_owner_props(owners.skip(1), om);
        let fm = first_missing_owner(owners, om);
        assert forall|j: int| 0 <= j < fm implies om.contains_key((#[trigger] owners[j]).0) by {
            if j > 0 {
                assert(owners.skip(1)[j - 1] == owners[j]);
            }
        }
        if fm < owners.len() {
            assert(owners.skip(1)[fm - 1] == owners[fm]);
        }
    }
}

/// What resolving one session reports: its unknown category, its first
/// unknown owner, or nothing.
pub open spec fn session_error(
    s: aktool::AK,
    cm: Map<u64, Category>,
    om: Map<u64, Owner>,
) -> Option<AggregationError> {
    if !cm.contains_key(s.category.0) {
        Some(AggregationError::UnknownCategory(s.category))
    } else if first_missing_owner(s.owners@, om) < s.owners@.len() {
        Some(AggregationError::UnknownOwner(s.owners@[first_missing_owner(s.owners@, om)]))
    } else {
        None
    }
}

/// A session resolves exactly when it reports no error.
proof fn lemma_session_error_none_iff(s: aktool::AK, cm: Map<u64, Category>, om: Map<u64, Owner>)
    ensures
        session_error(s, cm, om) is None <==> session_resolvable(s, cm, om),
{
    lemma_first_missing_owner_props(s.owners@, om);
    if session_error(s, cm, om) is None {
        assert(first_missing_owner(s.owners@, om) == s.owners@.len());
    } else if cm.contains_key(s.category.0) {
        assert(!om.contains_key(s.owners@[first_missing_owner(s.owners@, om)].0));
    }
}

/// The error of the first session that does not resolve, in the ascending
/// resolution order.
pub open spec fn first_session_error(
    fss: Seq<aktool::AK>,
    cm: Map<u64, Category>,
    om: Map<u64, Owner>,
) -> Option<AggregationError>
    decreases fss.len(),
{
    if fss.len() == 0 {
        None
    } else if session_error(fss[0], cm, om) is Some {
        session_error(fss[0], cm, om)
    } else {
        first_session_error(fss.skip(1), cm, om)
    }
}

proof fn lemma_first_session_error_at(
    fss: Seq<aktool::AK>,
    cm: Map<u64, Category>,
    om: Map<u64, Owner>,
    i: int,
)
    requires
        0 <= i < fss.len(),
        forall|k: int| 0 <= k < i ==> session_error(#[trigger] fss[k], cm, om) is None,
        session_error(fss[i], cm, om) is Some,
    ensures
        first_session_error(fss, cm, om) == session_error(fss[i], cm, om),
    decreases i,
{
    if i > 0 {
        assert forall|k: int|
            0 <= k < i - 1 implies session_error(#[trigger] fss.skip(1)[k], cm, om) is None by {
            assert(fss.skip(1)[k] == fss[k + 1]);
        }
        assert(fss.skip(1)[i - 1] == fss[i]);
        lemma_first_session_error_at(fss.skip(1), cm, om, i - 1);
    }
}

proof fn lemma_first_session_error_none(
    fss: Seq<aktool::AK>,
    cm: Map<u64, Category>,
    om: Map<u64, Owner>,
)
    requires
        forall|k: int| 0 <= k < fss.len() ==> session_error(#[trigger] fss[k], cm, om) is None,
    ensures
        first_session_error(fss, cm, om) is None,
    decreases fss.len(),
{
    if fss.len() > 0 {
        assert forall|k: int|
            0 <= k < fss.skip(1).len() implies session_error(
            #[trigger] fss.skip(1)[k],
            cm,
            om,
        ) is None by {
            assert(fss.skip(1)[k] == fss[k + 1]);
        }
        lemma_first_session_error_none(fss.skip(1), cm, om);
    }
}

/// The error of the first slot that references no session.
pub open spec fn first_slot_error(fl: Seq<aktool::Slot>, fss: Seq<aktool::AK>) -> Option<
    AggregationError,
>
    decreases fl.len(),
{
    if fl.len() == 0 {
        None
    } else if !some_session_id(fss, fl[0].ak.0) {
        Some(AggregationError::UnknownSession(fl[0].ak))
    } else {
        first_slot_error(fl.skip(1), fss)
    }
}

proof fn lemma_first_slot_error_at(fl: Seq<aktool::Slot>, fss: Seq<aktool::AK>, i: int)
    requires
        0 <= i < fl.len(),
        forall|k: int| 0 <= k < i ==> some_session_id(fss, (#[trigger] fl[k].ak).0),
        !some_session_id(fss, fl[i].ak.0),
    ensures
        first_slot_error(fl, fss) == Some(AggregationError::UnknownSession(fl[i].ak)),
    decreases i,
{
    if i > 0 {
        assert forall|k: int|
            0 <= k < i - 1 implies some_session_id(fss, (#[trigger] fl.skip(1)[k].ak).0) by {
            assert(fl.skip(1)[k] == fl[k + 1]);
        }
        assert(fl.skip(1)[i - 1] == fl[i]);
        lemma_first_slot_error_at(fl.skip(1), fss, i - 1);
    }
}

/// The contract of aggregating one event from its own raw records:
/// aggregation succeeds exactly when all three record kinds are present and
/// every reference resolves, and then every session of the result is pinned;
/// each failure carries a witness from the records.
pub open spec fn aggregation_outcome(
    fc: Seq<aktool::Category>,
    fo: Seq<aktool::Owner>,
    fs: Seq<aktool::AK>,
    fl: Seq<aktool::Slot>,
    ev: u64,
    r: Result<Event, AggregationError>,
) -> bool {
    let cm = categories_map(fc);
    let om = owners_map(fo);
    let fss = sort_sessions(fs);
    &&& (r is Ok <==> fc.len() > 0 && fo.len() > 0 && fs.len() > 0 && all_resolvable(fss, cm, om)
        && all_slots_match(fl, fss))
    &&& match r {
        Ok(e) => {
            &&& e.inv()
            &&& e.spec_categories() == cm
            &&& e.spec_owners() == om
            &&& forall|sid: u64| e.spec_aks().contains_key(sid) <==> some_session_id(fss, sid)
            &&& forall|sid: u64|
                e.spec_aks().contains_key(sid) ==> ak_resolved_d(
                    last_session_with(fss, sid),
                    cm,
                    om,
                    e.spec_aks()[sid],
                    slot_sum(fl, sid),
                )
        },
        Err(AggregationError::UnknownEvent(id)) => id.0 == ev && (fc.len() == 0 || fo.len() == 0
            || fs.len() == 0),
        Err(AggregationError::UnknownCategory(c)) => fc.len() > 0 && fo.len() > 0 && fs.len() > 0
            && first_session_error(fss, cm, om) == Some(AggregationError::UnknownCategory(c)),
        Err(AggregationError::UnknownOwner(o)) => fc.len() > 0 && fo.len() > 0 && fs.len() > 0
            && first_session_error(fss, cm, om) == Some(AggregationError::UnknownOwner(o)),
        Err(AggregationError::UnknownSession(sid)) => fc.len() > 0 && fo.len() > 0 && fs.len() > 0
            && first_session_error(fss, cm, om) is None && first_slot_error(fl, fss) == Some(
            AggregationError::UnknownSession(sid),
        ),
    }
}

/// Aggregates one event from the records belonging to it: builds the
/// category and owner maps, resolves every session (later duplicates
/// winning), then sums the slots onto the sessions they reference.
pub fn aggregate_event(
    ev: u64,
    categories: Vec<aktool::Category>,
    owners: Vec<aktool::Owner>,
    sessions: Vec<aktool::AK>,
    slots: Vec<aktool::Slot>,
) -> (r: Result<Event, AggregationError>)
    ensures
        aggregation_outcome(categories@, owners@, sessions@, slots@, ev, r),
{
    let ghost gc = categories@;
    let ghost go = owners@;
    let ghost gs = sessions@;
    let ghost ss = sort_sessions(sessions@);
    let ghost ls = slots@;
    if categories.len() == 0 || owners.len() == 0 || sessions.len() == 0 {
        return Err(AggregationError::UnknownEvent(aktool::EventId(ev)));
    }
    let sorted = sort_sessions_exec(sessions);
    let mut e = Event::new(categories, owners);
    let ghost cm = e.spec_categories();
    let ghost om = e.spec_owners();
    let mut rem = sorted;
    proof {
        assert(rem@ == ss);
        assert(ss.len() == gs.len());
        assert(ss.skip(0) =~= ss);
        assert(ss.take(0) =~= Seq::<aktool::AK>::empty());
    }
    while rem.len() > 0
        invariant
            e.inv(),
            e.spec_categories() == cm,
            e.spec_owners() == om,
            cm == categories_map(gc),
            om == owners_map(go),
            gc == categories@,
            go == owners@,
            gs == sessions@,
            ss == sort_sessions(gs),
            ls == slots@,
            gc.len() > 0,
            go.len() > 0,
            gs.len() > 0,
            ss.len() == gs.len(),
            rem@.len() <= ss.len(),
            rem@ == ss.skip(ss.len() - rem@.len()),
            forall|sid: u64|
                e.spec_aks().contains_key(sid) <==> some_session_id(
                    ss.take(ss.len() - rem@.len()),
                    sid,
                ),
            forall|sid: u64|
                e.spec_aks().contains_key(sid) ==> ak_resolved(
                    last_session_with(ss.take(ss.len() - rem@.len()), sid),
                    cm,
                    om,
                    e.spec_aks()[sid],
                ),
            forall|k: int|
                0 <= k < ss.len() - rem@.len() ==> session_resolvable(#[trigger] ss[k], cm, om),
        decreases rem@.len(),
    {
        let ghost i = ss.len() - rem@.len();
        let ghost pre = e.spec_aks();
        let s = rem.remove(0);
        proof {
            assert(ss.skip(i)[0] == ss[i]);
            assert(s == ss[i]);
            assert(rem@ == ss.skip(i).remove(0));
            assert(ss.skip(i).remove(0) =~= ss.skip(i + 1));
        }
        let ghost sv = s;
        match e.add_ak(s) {
            Err(err) => {
                proof {
                    assert forall|k: int|
                        0 <= k < i implies session_error(#[trigger] ss[k], cm, om) is None by {
                        lemma_session_error_none_iff(ss[k], cm, om);
                    }
                    match err {
                        AggregationError::UnknownCategory(c) => {
                            assert(ss[i].category == c);
                            assert(!session_resolvable(ss[i], cm, om));
                            assert(!all_resolvable(ss, cm, om));
                            assert(session_error(ss[i], cm, om) == Some(err));
                        },
                        AggregationError::UnknownOwner(o) => {
                            let j = choose|j: int|
                                0 <= j < sv.owners@.len() && #[trigger] sv.owners@[j] == o && (
                                forall|k: int|
                                    0 <= k < j ==> om.contains_key(
                                        (#[trigger] sv.owners@[k]).0,
                                    ));
                            assert(ss[i].owners@[j] == o);
                            assert(!session_resolvable(ss[i], cm, om));
                            assert(!all_resolvable(ss, cm, om));
                            lemma_first_missing_owner_props(sv.owners@, om);
                            let fm = first_missing_owner(sv.owners@, om);
                            assert(fm == j) by {
                                if fm < j {
                                    assert(om.contains_key(sv.owners@[fm].0));
                                }
                                if fm > j {
                                    assert(om.contains_key(sv.owners@[j].0));
                                }
                            }
                            assert(session_error(ss[i], cm, om) == Some(err));
                        },
                        _ => {
                            assert(false);
                        },
                    }
                    lemma_first_session_error_at(ss, cm, om, i);
                }
                return Err(err);
            },
            Ok(()) => {
                proof {
                    let t1 = ss.take(i + 1);
                    assert(t1.drop_last() =~= ss.take(i));
                    assert(t1.last() == ss[i]);
                    assert(t1.len() == i + 1);
                    assert forall|sid: u64|
                        e.spec_aks().contains_key(sid) <==> some_session_id(t1, sid) by {
                        if e.spec_aks().contains_key(sid) {
                            if sid == sv.id.0 {
                                assert(t1[i] == ss[i]);
                                assert(t1[i].id.0 == sid);
                            } else {
                                assert(pre.contains_key(sid));
                                let w = choose|w: int|
                                    0 <= w < ss.take(i).len() && #[trigger] ss.take(
                                        i,
                                    )[w].id.0 == sid;
                                assert(t1[w] == ss.take(i)[w]);
                                assert(t1[w].id.0 == sid);
                            }
                        }
                        if some_session_id(t1, sid) {
                            let w = choose|w: int| 0 <= w < t1.len() && #[trigger] t1[w].id.0
                                == sid;
                            if w == i {
                                assert(sid == sv.id.0);
                            } else {
                                assert(ss.take(i)[w] == t1[w]);
                                assert(some_session_id(ss.take(i), sid));
                            }
                        }
                    }
                    assert forall|sid: u64| e.spec_aks().contains_key(sid) implies ak_resolved(
                        last_session_with(t1, sid),
                        cm,
                        om,
                        e.spec_aks()[sid],
                    ) by {
                        if sid == sv.id.0 {
                            assert(last_session_with(t1, sid) == ss[i]);
                            assert(e.spec_aks()[sid] == e.spec_aks()[sv.id.0]);
                        } else {
                            assert(last_session_with(t1, sid) == last_session_with(
                                ss.take(i),
                                sid,
                            ));
                            assert(e.spec_aks()[sid] == pre[sid]);
                        }
                    }
                }
            },
        }
    }
    proof {
        assert(ss.take(ss.len() as int) =~= ss);
    }
    let ghost base = e.spec_aks();
    let mut lrem = slots;
    proof {
        assert(ls.skip(0) =~= ls);
        assert(ls.take(0) =~= Seq::<aktool::Slot>::empty());
        assert forall|sid: u64| base.contains_key(sid) implies e.spec_aks()[sid] == with_duration(
            base[sid],
            slot_sum(ls.take(0), sid),
        ) by {
            assert(slot_sum(ls.take(0), sid) == 0);
            assert(base[sid].duration == 0);
        }
    }
    while lrem.len() > 0
        invariant
            e.inv(),
            e.spec_categories() == cm,
            e.spec_owners() == om,
            cm == categories_map(gc),
            om == owners_map(go),
            gc == categories@,
            go == owners@,
            gs == sessions@,
            ss == sort_sessions(gs),
            ls == slots@,
            gc.len() > 0,
            go.len() > 0,
            gs.len() > 0,
            ss.len() == gs.len(),
            all_resolvable(ss, cm, om),
            lrem@.len() <= ls.len(),
            lrem@ == ls.skip(ls.len() - lrem@.len()),
            forall|sid: u64| base.contains_key(sid) <==> some_session_id(ss, sid),
            forall|sid: u64|
                base.contains_key(sid) ==> ak_resolved(
                    last_session_with(ss, sid),
                    cm,
                    om,
                    base[sid],
                ),
            forall|sid: u64| e.spec_aks().contains_key(sid) <==> base.contains_key(sid),
            forall|sid: u64|
                e.spec_aks().contains_key(sid) ==> e.spec_aks()[sid] == with_duration(
                    base[sid],
                    slot_sum(ls.take(ls.len() - lrem@.len()), sid),
                ),
            forall|k: int|
                0 <= k < ls.len() - lrem@.len() ==> some_session_id(ss, #[trigger] ls[k].ak.0),
        decreases lrem@.len(),
    {
        let ghost j = ls.len() - lrem@.len();
        let ghost pre = e.spec_aks();
        let sl = lrem.remove(0);
        proof {
            assert(ls.skip(j)[0] == ls[j]);
            assert(sl == ls[j]);
            assert(lrem@ == ls.skip(j).remove(0));
            assert(ls.skip(j).remove(0) =~= ls.skip(j + 1));
        }
        match e.add_slot(&sl) {
            Err(err) => {
                proof {
                    assert forall|k: int|
                        0 <= k < ss.len() implies session_error(
                        #[trigger] ss[k],
                        cm,
                        om,
                    ) is None by {
                        lemma_session_error_none_iff(ss[k], cm, om);
                    }
                    lemma_first_session_error_none(ss, cm, om);
                    match err {
                        AggregationError::UnknownSession(sid) => {
                            assert(ls[j].ak == sid);
                            assert(!some_session_id(ss, sid.0));
                            assert(!all_slots_match(ls, ss));
                            lemma_first_slot_error_at(ls, ss, j);
                        },
                        _ => {
                            assert(false);
                        },
                    }
                }
                return Err(err);
            },
            Ok(()) => {
                proof {
                    let t1 = ls.take(j + 1);
                    assert(t1.drop_last() =~= ls.take(j));
                    assert(t1.last() == ls[j]);
                    assert forall|sid: u64| e.spec_aks().contains_key(sid) implies e.spec_aks()[sid]
                        == with_duration(base[sid], slot_sum(t1, sid)) by {
                        if sid == sl.ak.0 {
                            assert(pre[sid] == with_duration(base[sid], slot_sum(ls.take(j), sid)));
                            assert(pre[sid].duration == slot_sum(ls.take(j), sid));
                            assert(slot_sum(t1, sid) == sat_add(
                                slot_sum(ls.take(j), sid),
                                slot_contrib(ls[j]),
                            ));
                            assert(e.spec_aks()[sid] == with_duration(
                                pre[sid],
                                sat_add(pre[sid].duration, slot_contrib(sl)),
                            ));
                        } else {
                            assert(slot_sum(t1, sid) == sat_add(slot_sum(ls.take(j), sid), 0));
                            assert(sat_add(slot_sum(ls.take(j), sid), 0) == slot_sum(
                                ls.take(j),
                                sid,
                            ));
                            assert(e.spec_aks()[sid] == pre[sid]);
                        }
                    }
                }
            },
        }
    }
    proof {
        assert(ls.take(ls.len() as int) =~= ls);
        assert forall|sid: u64| e.spec_aks().contains_key(sid) implies ak_resolved_d(
            last_session_with(ss, sid),
            cm,
            om,
            e.spec_aks()[sid],
            slot_sum(ls, sid),
        ) by {
            assert(base.contains_key(sid));
            assert(ak_resolved(last_session_with(ss, sid), cm, om, base[sid]));
            assert(slot_sum(ls.take(ls.len() as int), sid) == slot_sum(ls, sid));
            assert(e.spec_aks()[sid] == with_duration(base[sid], slot_sum(ls, sid)));
        }
    }
    Ok(e)
}

/// The categories belonging to one event, in input order.
pub open spec fn cats_for(cs: Seq<aktool::Category>, ev: u64) -> Seq<aktool::Category>
    decreases cs.len(),
{
    if cs.len() == 0 {
        Seq::empty()
    } else if cs.last().event.0 == ev {
        cats_for(cs.drop_last(), ev) + seq![cs.last()]
    } else {
        cats_for(cs.drop_last(), ev)
    }
}

/// The owners belonging to one event, in input order.
pub open spec fn owners_for(os: Seq<aktool::Owner>, ev: u64) -> Seq<aktool::Owner>
    decreases os.len(),
{
    if os.len() == 0 {
        Seq::empty()
    } else if os.last().event.0 == ev {
        owners_for(os.drop_last(), ev) + seq![os.last()]
    } else {
        owners_for(os.drop_last(), ev)
    }
}

/// The sessions belonging to one event, in input order.
pub open spec fn sessions_for(ss: Seq<aktool::AK>, ev: u64) -> Seq<aktool::AK>
    decreases ss.len(),
{
    if ss.len() == 0 {
        Seq::empty()
    } else if ss.last().event.0 == ev {
        sessions_for(ss.drop_last(), ev) + seq![ss.last()]
    } else {
        sessions_for(ss.drop_last(), ev)
    }
}

/// The slots belonging to one event, in input order.
pub open spec fn slots_for(ls: Seq<aktool::Slot>, ev: u64) -> Seq<aktool::Slot>
    decreases ls.len(),
{
    if ls.len() == 0 {
        Seq::empty()
    } else if ls.last().event.0 == ev {
        slots_for(ls.drop_last(), ev) + seq![ls.last()]
    } else {
        slots_for(ls.drop_last(), ev)
    }
}

/// Some key among the first `idx` entries equals `e`.
pub open spec fn key_in_prefix(s: Seq<(u64, bool)>, idx: int, e: u64) -> bool {
    exists|j: int| 0 <= j < idx && #[trigger] s[j].0 == e
}

/// Appends a record to the bucket of its event.
fn bucket_push<T>(m: &mut IdMap<Vec<T>>, ev: u64, x: T)
    requires
        old(m).inv(),
    ensures
        final(m).inv(),
        forall|e: u64| final(m)@.contains_key(e) <==> (old(m)@.contains_key(e) || e == ev),
        final(m)@[ev]@ == (if old(m)@.contains_key(ev) {
            old(m)@[ev]@
        } else {
            Seq::<T>::empty()
        }) + seq![x],
        forall|e: u64| e != ev && old(m)@.contains_key(e) ==> final(m)@[e] == old(m)@[e],
{
    let mut v = match m.remove(ev) {
        Some(v) => v,
        None => Vec::new(),
    };
    v.push(x);
    m.insert(ev, v);
}

/// Aggregates the whole export: groups the flat records by event id and
/// aggregates each event on its own, so one event's failure leaves the
/// others intact.  The produced events are the union of the event ids seen
/// across categories, owners and sessions; slots only contribute durations.
pub fn build(
    categories: Vec<aktool::Category>,
    owners: Vec<aktool::Owner>,
    sessions: Vec<aktool::AK>,
    slots: Vec<aktool::Slot>,
) -> (r: IdMap<Result<Event, AggregationError>>)
    ensures
        r.inv(),
        forall|e: u64|
            r@.contains_key(e) <==> cats_for(categories@, e).len() > 0 || owners_for(
                owners@,
                e,
            ).len() > 0 || sessions_for(sessions@, e).len() > 0,
        forall|e: u64|
            r@.contains_key(e) ==> aggregation_outcome(
                cats_for(categories@, e),
                owners_for(owners@, e),
                sessions_for(sessions@, e),
                slots_for(slots@, e),
                e,
                r@[e],
            ),
{
    let ghost gc = categories@;
    let ghost go = owners@;
    let ghost gs = sessions@;
    let ghost gl = slots@;
    let mut ids: IdMap<bool> = IdMap::new();

    let mut cb: IdMap<Vec<aktool::Category>> = IdMap::new();
    let mut rem = categories;
    proof {
        assert(gc.skip(0) =~= gc);
        assert(gc.take(0) =~= Seq::<aktool::Category>::empty());
    }
    while rem.len() > 0
        invariant
            cb.inv(),
            ids.inv(),
            gc == categories@,
            rem@.len() <= gc.len(),
            rem@ == gc.skip(gc.len() - rem@.len()),
            forall|e: u64|
                cb@.contains_key(e) <==> cats_for(gc.take(gc.len() - rem@.len()), e).len() > 0,
            forall|e: u64|
                cb@.contains_key(e) ==> cb@[e]@ == cats_for(gc.take(gc.len() - rem@.len()), e),
            forall|e: u64|
                ids@.contains_key(e) <==> cats_for(gc.take(gc.len() - rem@.len()), e).len() > 0,
        decreases rem@.len(),
    {
        let ghost i = gc.len() - rem@.len();
        let ghost pre = cb@;
        let c = rem.remove(0);
        proof {
            assert(gc.skip(i)[0] == gc[i]);
            assert(c == gc[i]);
            assert(rem@ == gc.skip(i).remove(0));
            assert(gc.skip(i).remove(0) =~= gc.skip(i + 1));
        }
        let ev = c.event.0;
        bucket_push(&mut cb, ev, c);
        ids.insert(ev, true);
        proof {
            let t1 = gc.take(i + 1);
            assert(t1.drop_last() =~= gc.take(i));
            assert(t1.last() == gc[i]);
            assert forall|e: u64| #![trigger cats_for(t1, e)] true implies cats_for(t1, e) == (
            if e == ev {
                cats_for(gc.take(i), e) + seq![gc[i]]
            } else {
                cats_for(gc.take(i), e)
            }) by {}
            assert(cb@[ev]@ == cats_for(t1, ev)) by {
                if pre.contains_key(ev) {
                    assert(pre[ev]@ == cats_for(gc.take(i), ev));
                } else {
                    assert(cats_for(gc.take(i), ev).len() == 0);
                    assert(cats_for(gc.take(i), ev) =~= Seq::<aktool::Category>::empty());
                    assert(Seq::<aktool::Category>::empty() + seq![gc[i]] =~= cats_for(t1, ev));
                }
            }
        }
    }
    proof {
        assert(gc.take(gc.len() as int) =~= gc);
    }

    let mut ob: IdMap<Vec<aktool::Owner>> = IdMap::new();
    let mut rem = owners;
    proof {
        assert(go.skip(0) =~= go);
        assert(go.take(0) =~= Seq::<aktool::Owner>::empty());
    }
    while rem.len() > 0
        invariant
            ob.inv(),
            ids.inv(),
            cb.inv(),
            gc == categories@,
            go == owners@,
            forall|e: u64| cb@.contains_key(e) <==> cats_for(gc, e).len() > 0,
            forall|e: u64| cb@.contains_key(e) ==> cb@[e]@ == cats_for(gc, e),
            rem@.len() <= go.len(),
            rem@ == go.skip(go.len() - rem@.len()),
            forall|e: u64|
                ob@.contains_key(e) <==> owners_for(go.take(go.len() - rem@.len()), e).len() > 0,
            forall|e: u64|
                ob@.contains_key(e) ==> ob@[e]@ == owners_for(go.take(go.len() - rem@.len()), e),
            forall|e: u64|
                ids@.contains_key(e) <==> cats_for(gc, e).len() > 0 || owners_for(
                    go.take(go.len() - rem@.len()),
                    e,
                ).len() > 0,
        decreases rem@.len(),
    {
        let ghost i = go.len() - rem@.len();
        let ghost pre = ob@;
        let c = rem.remove(0);
        proof {
            assert(go.skip(i)[0] == go[i]);
            assert(c == go[i]);
            assert(rem@ == go.skip(i).remove(0));
            assert(go.skip(i).remove(0) =~= go.skip(i + 1));
        }
        let ev = c.event.0;
        bucket_push(&mut ob, ev, c);
        ids.insert(ev, true);
        proof {
            let t1 = go.take(i + 1);
            assert(t1.drop_last() =~= go.take(i));
            assert(t1.last() == go[i]);
            assert forall|e: u64| #![trigger owners_for(t1, e)] true implies owners_for(t1, e) == (
            if e == ev {
                owners_for(go.take(i), e) + seq![go[i]]
            } else {
                owners_for(go.take(i), e)
            }) by {}
            assert(ob@[ev]@ == owners_for(t1, ev)) by {
                if pre.contains_key(ev) {
                    assert(pre[ev]@ == owners_for(go.take(i), ev));
                } else {
                    assert(owners_for(go.take(i), ev).len() == 0);
                    assert(owners_for(go.take(i), ev) =~= Seq::<aktool::Owner>::empty());
                    assert(Seq::<aktool::Owner>::empty() + seq![go[i]] =~= owners_for(t1, ev));
                }
            }
        }
    }
    proof {
        assert(go.take(go.len() as int) =~= go);
    }

    let mut sb: IdMap<Vec<aktool::AK>> = IdMap::new();
    let mut rem = sessions;
    proof {
        assert(gs.skip(0) =~= gs);
        assert(gs.take(0) =~= Seq::<aktool::AK>::empty());
    }
    while rem.len() > 0
        invariant
            sb.inv(),
            ids.inv(),
            cb.inv(),
            ob.inv(),
            gc == categories@,
            go == owners@,
            gs == sessions@,
            forall|e: u64| cb@.contains_key(e) <==> cats_for(gc, e).len() > 0,
            forall|e: u64| cb@.contains_key(e) ==> cb@[e]@ == cats_for(gc, e),
            forall|e: u64| ob@.contains_key(e) <==> owners_for(go, e).len() > 0,
            forall|e: u64| ob@.contains_key(e) ==> ob@[e]@ == owners_for(go, e),
            rem@.len() <= gs.len(),
            rem@ == gs.skip(gs.len() - rem@.len()),
            forall|e: u64|
                sb@.contains_key(e) <==> sessions_for(gs.take(gs.len() - rem@.len()), e).len() > 0,
            forall|e: u64|
                sb@.contains_key(e) ==> sb@[e]@ == sessions_for(gs.take(gs.len() - rem@.len()), e),
            forall|e: u64|
                ids@.contains_key(e) <==> cats_for(gc, e).len() > 0 || owners_for(go, e).len() > 0
                    || sessions_for(gs.take(gs.len() - rem@.len()), e).len() > 0,
        decreases rem@.len(),
    {
        let ghost i = gs.len() - rem@.len();
        let ghost pre = sb@;
        let c = rem.remove(0);
        proof {
            assert(gs.skip(i)[0] == gs[i]);
            assert(c == gs[i]);
            assert(rem@ == gs.skip(i).remove(0));
            assert(gs.skip(i).remove(0) =~= gs.skip(i + 1));
        }
        let ev = c.event.0;
        bucket_push(&mut sb, ev, c);
        ids.insert(ev, true);
        proof {
            let t1 = gs.take(i + 1);
            assert(t1.drop_last() =~= gs.take(i));
            assert(t1.last() == gs[i]);
            assert forall|e: u64| #![trigger sessions_for(t1, e)] true implies sessions_for(t1, e)
                == (
            if e == ev {
                sessions_for(gs.take(i), e) + seq![gs[i]]
            } else {
                sessions_for(gs.take(i), e)
            }) by {}
            assert(sb@[ev]@ == sessions_for(t1, ev)) by {
                if pre.contains_key(ev) {
                    assert(pre[ev]@ == sessions_for(gs.take(i), ev));
                } else {
                    assert(sessions_for(gs.take(i), ev).len() == 0);
                    assert(sessions_for(gs.take(i), ev) =~= Seq::<aktool::AK>::empty());
                    assert(Seq::<aktool::AK>::empty() + seq![gs[i]] =~= sessions_for(t1, ev));
                }
            }
        }
    }
    proof {
        assert(gs.take(gs.len() as int) =~= gs);
    }

    let mut lb: IdMap<Vec<aktool::Slot>> = IdMap::new();
    let mut rem = slots;
    proof {
        assert(gl.skip(0) =~= gl);
        assert(gl.take(0) =~= Seq::<aktool::Slot>::empty());
    }
    while rem.len() > 0
        invariant
            lb.inv(),
            gl == slots@,
            rem@.len() <= gl.len(),
            rem@ == gl.skip(gl.len() - rem@.len()),
            forall|e: u64|
                lb@.contains_key(e) <==> slots_for(gl.take(gl.len() - rem@.len()), e).len() > 0,
            forall|e: u64|
                lb@.contains_key(e) ==> lb@[e]@ == slots_for(gl.take(gl.len() - rem@.len()), e),
        decreases rem@.len(),
    {
        let ghost i = gl.len() - rem@.len();
        let ghost pre = lb@;
        let c = rem.remove(0);
        proof {
            assert(gl.skip(i)[0] == gl[i]);
            assert(c == gl[i]);
            assert(rem@ == gl.skip(i).remove(0));
            assert(gl.skip(i).remove(0) =~= gl.skip(i + 1));
        }
        let ev = c.event.0;
        bucket_push(&mut lb, ev, c);
        proof {
            let t1 = gl.take(i + 1);
            assert(t1.drop_last() =~= gl.take(i));
            assert(t1.last() == gl[i]);
            assert forall|e: u64| #![trigger slots_for(t1, e)] true implies slots_for(t1, e) == (
            if e == ev {
                slots_for(gl.take(i), e) + seq![gl[i]]
            } else {
                slots_for(gl.take(i), e)
            }) by {}
            assert(lb@[ev]@ == slots_for(t1, ev)) by {
                if pre.contains_key(ev) {
                    assert(pre[ev]@ == slots_for(gl.take(i), ev));
                } else {
                    assert(slots_for(gl.take(i), ev).len() == 0);
                    assert(slots_for(gl.take(i), ev) =~= Seq::<aktool::Slot>::empty());
                    assert(Seq::<aktool::Slot>::empty() + seq![gl[i]] =~= slots_for(t1, ev));
                }
            }
        }
    }
    proof {
        assert(gl.take(gl.len() as int) =~= gl);
    }

    // aggregate each collected event id on its own
    let mut result: IdMap<Result<Event, AggregationError>> = IdMap::new();
    let n = ids.len();
    let mut idx: usize = 0;
    while idx < n
        invariant
            result.inv(),
            ids.inv(),
            cb.inv(),
            ob.inv(),
            sb.inv(),
            lb.inv(),
            gc == categories@,
            go == owners@,
            gs == sessions@,
            gl == slots@,
            n == ids.entries_view().len(),
            idx <= n,
            forall|e: u64|
                ids@.contains_key(e) <==> cats_for(gc, e).len() > 0 || owners_for(go, e).len() > 0
                    || sessions_for(gs, e).len() > 0,
            forall|e: u64|
                !key_in_prefix(ids.entries_view(), idx as int, e) ==> ((cb@.contains_key(e)
                    <==> cats_for(gc, e).len() > 0) && (cb@.contains_key(e) ==> cb@[e]@ == cats_for(
                    gc,
                    e,
                ))),
            forall|e: u64|
                !key_in_prefix(ids.entries_view(), idx as int, e) ==> ((ob@.contains_key(e)
                    <==> owners_for(go, e).len() > 0) && (ob@.contains_key(e) ==> ob@[e]@
                    == owners_for(go, e))),
            forall|e: u64|
                !key_in_prefix(ids.entries_view(), idx as int, e) ==> ((sb@.contains_key(e)
                    <==> sessions_for(gs, e).len() > 0) && (sb@.contains_key(e) ==> sb@[e]@
                    == sessions_for(gs, e))),
            forall|e: u64|
                !key_in_prefix(ids.entries_view(), idx as int, e) ==> ((lb@.contains_key(e)
                    <==> slots_for(gl, e).len() > 0) && (lb@.contains_key(e) ==> lb@[e]@
                    == slots_for(gl, e))),
            forall|e: u64|
                result@.contains_key(e) <==> key_in_prefix(ids.entries_view(), idx as int, e),
            forall|e: u64|
                result@.contains_key(e) ==> aggregation_outcome(
                    cats_for(gc, e),
                    owners_for(go, e),
                    sessions_for(gs, e),
                    slots_for(gl, e),
                    e,
                    result@[e],
                ),
        decreases n - idx,
    {
        proof {
            ids.lemma_entries();
        }
        let ev = ids.entry_at(idx).0;
        proof {
            assert(!key_in_prefix(ids.entries_view(), idx as int, ev)) by {
                if key_in_prefix(ids.entries_view(), idx as int, ev) {
                    let j = choose|j: int|
                        0 <= j < idx && #[trigger] ids.entries_view()[j].0 == ev;
                    assert(ids.entries_view()[j].0 < ids.entries_view()[idx as int].0);
                }
            }
        }
        let fc = match cb.remove(ev) {
            Some(v) => v,
            None => Vec::new(),
        };
        let fo = match ob.remove(ev) {
            Some(v) => v,
            None => Vec::new(),
        };
        let fs = match sb.remove(ev) {
            Some(v) => v,
            None => Vec::new(),
        };
        let fl = match lb.remove(ev) {
            Some(v) => v,
            None => Vec::new(),
        };
        proof {
            if cats_for(gc, ev).len() == 0 {
                assert(fc@ =~= cats_for(gc, ev));
            }
            if owners_for(go, ev).len() == 0 {
                assert(fo@ =~= owners_for(go, ev));
            }
            if sessions_for(gs, ev).len() == 0 {
                assert(fs@ =~= sessions_for(gs, ev));
            }
            if slots_for(gl, ev).len() == 0 {
                assert(fl@ =~= slots_for(gl, ev));
            }
        }
        let res = aggregate_event(ev, fc, fo, fs, fl);
        result.insert(ev, res);
        proof {
            assert(ids.entries_view()[idx as int].0 == ev);
            assert forall|e: u64|
                result@.contains_key(e) <==> key_in_prefix(
                    ids.entries_view(),
                    idx + 1,
                    e,
                ) by {
                if result@.contains_key(e) {
                    if e == ev {
                        assert(ids.entries_view()[idx as int].0 == e);
                    } else {
                        let j = choose|j: int|
                            0 <= j < idx && #[trigger] ids.entries_view()[j].0 == e;
                        assert(ids.entries_view()[j].0 == e);
                    }
                }
                if key_in_prefix(ids.entries_view(), idx + 1, e) {
                    let j = choose|j: int|
                        0 <= j < idx + 1 && #[trigger] ids.entries_view()[j].0 == e;
                    if j == idx {
                        assert(e == ev);
                    } else {
                        assert(key_in_prefix(ids.entries_view(), idx as int, e));
                    }
                }
            }
        }
        idx += 1;
    }
    proof {
        ids.lemma_entries();
        assert forall|e: u64|
            key_in_prefix(ids.entries_view(), n as int, e) <==> ids@.contains_key(e) by {
            if key_in_prefix(ids.entries_view(), n as int, e) {
                let j = choose|j: int| 0 <= j < n && #[trigger] ids.entries_view()[j].0 == e;
                assert(ids.entries_view()[j].0 == e);
            }
            if ids@.contains_key(e) {
                let j = choose|j: int|
                    0 <= j < ids.entries_view().len() && #[trigger] ids.entries_view()[j].0 == e;
                assert(ids.entries_view()[j].0 == e);
            }
        }
    }
    result
}

} // verus!

