use vstd::prelude::*;

use pulldown_cmark::Event::{Code, End, Start, Text};
use pulldown_cmark::Tag::{Heading, Link, List};
use pulldown_cmark::{LinkType, TagEnd};

use crate::collection::{
    empty_view, find_url, lemma_upsert_view, upsert_view, with_edge, Collection, CollectionView, Id,
};
use crate::entity::{labels_set, url_serialization, Entity, EntityView, Label, Name, Time, Url};
use crate::error::Error;

verus! {

/// How a link gives its display name.
#[derive(Debug, Clone, Copy, PartialEq, Eq, Structural)]
pub enum LinkKind {
    /// `[name](url)`: the name is the link's inline text.
    Named,
    /// `<url>`: an autolink, with no name.
    Bare,
}

/// One event of a markdown document, as far as the bookmark journal reads it.
#[derive(Debug)]
pub enum MdEvent {
    HeadingStart(usize),
    ListStart,
    LinkStart(LinkKind, String),
    OtherStart,
    Text(String),
    Code(String),
    ListEnd,
    LinkEnd,
    Other,
}

/// The events `pulldown_cmark` produces for a markdown text.
pub uninterp spec fn markdown_tokens(s: Seq<char>) -> Seq<MdEvent>;

/// Relies on `pulldown_cmark::Parser`: the event stream of a text, each event sorted into
/// the kinds the journal reader tells apart.
#[verifier::external_body]
fn markdown_events(input: &str) -> (r: Vec<MdEvent>)
    ensures
        r@ == markdown_tokens(input@),
{
    pulldown_cmark::Parser::new(input).map(|e| match e {
        Start(Heading { level, .. }) => MdEvent::HeadingStart(level as usize),
        Start(List(_)) => MdEvent::ListStart,
        Start(Link { link_type: LinkType::Inline, dest_url, .. }) => MdEvent::LinkStart(LinkKind::Named, dest_url.into_string()),
        Start(Link { link_type: LinkType::Autolink, dest_url, .. }) => MdEvent::LinkStart(LinkKind::Bare, dest_url.into_string()),
        Start(_) => MdEvent::OtherStart,
        Text(t) => MdEvent::Text(t.into_string()),
        Code(t) => MdEvent::Code(t.into_string()),
        End(TagEnd::List(_)) => MdEvent::ListEnd,
        End(TagEnd::Link) => MdEvent::LinkEnd,
        _ => MdEvent::Other,
    }).collect()
}

/// The midnight (UTC) of the day a text names in the given `chrono` format, in seconds.
pub uninterp spec fn date_in_format(s: Seq<char>, format: Seq<char>) -> Option<i64>;

/// Relies on `chrono::NaiveDate::parse_from_str`: the day a text names, taken at midnight UTC.
#[verifier::external_body]
fn parse_date_with(s: &str, format: &str) -> (r: Option<i64>)
    ensures
        r == date_in_format(s@, format@),
{
    match chrono::NaiveDate::parse_from_str(s, format) {
        Ok(d) => Some(d.and_time(chrono::NaiveTime::MIN).and_utc().timestamp()),
        Err(_) => None,
    }
}

/// The format of a section date: a full month name, the day, a comma and the year.
pub const DATE_FORMAT: &'static str = "%B %-d, %Y";

/// What the text last opened is, as far as text events care.
#[derive(Debug, Clone, Copy, PartialEq, Eq, Structural)]
pub enum Context {
    Nothing,
    Heading,
    NamedLink,
    Other,
}

/// The parser's state as plain values.
pub struct MdStateView {
    pub parts: Seq<Seq<char>>,
    pub date: Option<i64>,
    pub url: Option<Seq<char>>,
    pub labels: Seq<Seq<char>>,
    pub context: Context,
    pub level: usize,
    pub maybe_parent: Option<usize>,
    pub parents: Seq<usize>,
}

/// The state at the start of a document and of each date section.
pub open spec fn md_initial() -> MdStateView {
    MdStateView {
        parts: Seq::empty(),
        date: None,
        url: None,
        labels: Seq::empty(),
        context: Context::Nothing,
        level: 1,
        maybe_parent: None,
        parents: Seq::empty(),
    }
}

pub open spec fn concat_all(parts: Seq<Seq<char>>) -> Seq<char>
    decreases parts.len(),
{
    if parts.len() == 0 {
        Seq::empty()
    } else {
        concat_all(parts.drop_last()) + parts.last()
    }
}

/// The entity a closed link describes.
pub open spec fn link_entity(url: Seq<char>, date: i64, parts: Seq<Seq<char>>, labels: Seq<Seq<char>>) -> EntityView {
    EntityView {
        url: url,
        created_at: date,
        updated_at: Seq::empty(),
        names: if parts.len() == 0 {
            Set::empty()
        } else {
            set![concat_all(parts)]
        },
        labels: labels.to_set(),
        shared: None,
        to_read: None,
        is_feed: None,
        extended: None,
        last_visited_at: None,
    }
}

/// A label stack cut down to `k` entries.
pub open spec fn truncated(labels: Seq<Seq<char>>, k: int) -> Seq<Seq<char>> {
    if k < labels.len() {
        labels.subrange(0, k)
    } else {
        labels
    }
}

/// One transition of the journal reader: the next state and store, or `None` where the
/// event is an error.
pub open spec fn md_step(s: MdStateView, c: CollectionView, e: MdEvent) -> Option<(MdStateView, CollectionView)> {
    match e {
        MdEvent::HeadingStart(level) => if level <= 1 {
            Some((MdStateView { context: Context::Heading, ..md_initial() }, c))
        } else {
            Some((MdStateView { context: Context::Heading, level: level, labels: truncated(s.labels, level - 2), ..s }, c))
        },
        MdEvent::ListStart => Some((MdStateView {
            context: Context::Other,
            parents: match s.maybe_parent {
                Some(p) => s.parents.push(p),
                None => s.parents,
            },
            ..s
        }, c)),
        MdEvent::LinkStart(kind, dest) => match url_serialization(dest@) {
            Some(u) => Some((MdStateView {
                context: if kind == LinkKind::Named { Context::NamedLink } else { Context::Other },
                parts: Seq::empty(),
                url: Some(u),
                ..s
            }, c)),
            None => None,
        },
        MdEvent::OtherStart => Some((MdStateView { context: Context::Other, ..s }, c)),
        MdEvent::Text(t) => if s.context == Context::Heading {
            if s.level <= 1 {
                match date_in_format(t@, DATE_FORMAT@) {
                    Some(d) => Some((MdStateView { date: Some(d), ..s }, c)),
                    None => None,
                }
            } else {
                Some((MdStateView { labels: s.labels.push(t@), ..s }, c))
            }
        } else if s.context == Context::NamedLink {
            Some((MdStateView { parts: s.parts.push(t@), ..s }, c))
        } else {
            Some((s, c))
        },
        MdEvent::Code(t) => if s.context == Context::NamedLink {
            Some((MdStateView { parts: s.parts.push(seq!['`'] + t@ + seq!['`']), ..s }, c))
        } else {
            Some((s, c))
        },
        MdEvent::ListEnd => Some((MdStateView {
            parents: if s.parents.len() > 0 { s.parents.drop_last() } else { s.parents },
            maybe_parent: None,
            ..s
        }, c)),
        MdEvent::LinkEnd => match (s.url, s.date) {
            (Some(u), Some(d)) => {
                let c1 = upsert_view(c, link_entity(u, d, s.parts, s.labels));
                let id = find_url(c1.nodes, u)->Some_0;
                let c2 = if s.parents.len() > 0 {
                    let p = s.parents.last();
                    CollectionView { edges: with_edge(with_edge(c1.edges, p as int, id as usize), id, p), ..c1 }
                } else {
                    c1
                };
                Some((MdStateView { url: None, parts: Seq::empty(), maybe_parent: Some(id as usize), ..s }, c2))
            },
            _ => None,
        },
        MdEvent::Other => Some((s, c)),
    }
}

/// The reader run over a sequence of events.
pub open spec fn md_run(s: MdStateView, c: CollectionView, events: Seq<MdEvent>) -> Option<(MdStateView, CollectionView)>
    decreases events.len(),
{
    if events.len() == 0 {
        Some((s, c))
    } else {
        match md_step(s, c, events[0]) {
            Some((s1, c1)) => md_run(s1, c1, events.drop_first()),
            None => None,
        }
    }
}


/// Every id the state holds names an entity of a store of `n` entities.
pub open spec fn md_state_ok(s: MdStateView, n: int) -> bool {
    &&& s.maybe_parent matches Some(p) ==> p < n
    &&& forall|i: int| 0 <= i < s.parents.len() ==> s.parents[i] < n
}

struct MdState {
    parts: Vec<String>,
    date: Option<Time>,
    url: Option<Url>,
    labels: Vec<Label>,
    context: Context,
    level: usize,
    maybe_parent: Option<Id>,
    parents: Vec<Id>,
}

impl View for MdState {
    type V = MdStateView;

    closed spec fn view(&self) -> MdStateView {
        MdStateView {
            parts: self.parts@.map_values(|p: String| p@),
            date: match self.date {
                Some(t) => Some(t.0),
                None => None,
            },
            url: match self.url {
                Some(u) => Some(u@),
                None => None,
            },
            labels: self.labels@.map_values(|l: Label| l@),
            context: self.context,
            level: self.level,
            maybe_parent: match self.maybe_parent {
                Some(i) => Some(i.0),
                None => None,
            },
            parents: self.parents@.map_values(|i: Id| i.0),
        }
    }
}

fn join_parts(parts: &Vec<String>) -> (r: String)
    ensures
        r@ == concat_all(parts@.map_values(|p: String| p@)),
{
    let mut r = String::new();
    let mut i: usize = 0;
    while i < parts.len()
        invariant
            0 <= i <= parts.len(),
            r@ == concat_all(parts@.subrange(0, i as int).map_values(|p: String| p@)),
        decreases parts.len() - i,
    {
        let ghost lo = parts@.subrange(0, i as int).map_values(|p: String| p@);
        let ghost hi = parts@.subrange(0, i + 1).map_values(|p: String| p@);
        assert(hi.drop_last() =~= lo);
        assert(hi.last() == parts@[i as int]@);
        r.append(parts[i].as_str());
        i += 1;
    }
    assert(parts@.subrange(0, parts.len() as int) =~= parts@);
    r
}

fn copy_labels(labels: &Vec<Label>) -> (r: Vec<Label>)
    ensures
        r@.map_values(|l: Label| l@) == labels@.map_values(|l: Label| l@),
        labels_set(r@) == labels@.map_values(|l: Label| l@).to_set(),
{
    let mut r: Vec<Label> = Vec::new();
    let mut i: usize = 0;
    while i < labels.len()
        invariant
            0 <= i <= labels.len(),
            r@.len() == i,
            forall|k: int| 0 <= k < i ==> #[trigger] r@[k]@ == labels@[k]@,
        decreases labels.len() - i,
    {
        r.push(labels[i].duplicate());
        i += 1;
    }
    let ghost views = labels@.map_values(|l: Label| l@);
    assert(r@.map_values(|l: Label| l@) =~= views);
    assert forall|x: Seq<char>| labels_set(r@).contains(x) <==> views.to_set().contains(x) by {
        if labels_set(r@).contains(x) {
            let k = choose|k: int| 0 <= k < r@.len() && r@[k]@ == x;
            assert(views[k] == x);
        }
        if views.to_set().contains(x) {
            let k = choose|k: int| 0 <= k < views.len() && views[k] == x;
            assert(r@[k]@ == x);
        }
    }
    assert(labels_set(r@) =~= views.to_set());
    r
}

impl MdState {
    fn new() -> (r: MdState)
        ensures
            r@ == md_initial(),
    {
        let r = MdState {
            parts: Vec::new(),
            date: None,
            url: None,
            labels: Vec::new(),
            context: Context::Nothing,
            level: 1,
            maybe_parent: None,
            parents: Vec::new(),
        };
        assert(r@.parts =~= Seq::<Seq<char>>::empty());
        assert(r@.labels =~= Seq::<Seq<char>>::empty());
        assert(r@.parents =~= Seq::<usize>::empty());
        r
    }

    /// Closes the link being read: builds its entity, stores it, and ties it to the
    /// entity its list hangs from.
    fn save_entity(&mut self, coll: &mut Collection) -> (r: Result<(), Error>)
        requires
            old(coll).wf(),
            md_state_ok(old(self)@, old(coll)@.nodes.len() as int),
        ensures
            final(coll).wf(),
            match r {
                Ok(()) => {
                    &&& md_step(old(self)@, old(coll)@, MdEvent::LinkEnd) == Some((final(self)@, final(coll)@))
                    &&& md_state_ok(final(self)@, final(coll)@.nodes.len() as int)
                },
                Err(e) => md_step(old(self)@, old(coll)@, MdEvent::LinkEnd) is None,
            },
    {
        let url = match &self.url {
            Some(u) => u.duplicate(),
            None => {
                return Err(Error::MissingUrl);
            },
        };
        let date = match self.date {
            Some(d) => d,
            None => {
                return Err(Error::MissingDate);
            },
        };
        let ghost s = self@;
        let ghost c = coll@;
        let name = if self.parts.len() == 0 {
            None
        } else {
            Some(Name::new(join_parts(&self.parts)))
        };
        let labels = copy_labels(&self.labels);
        let entity = Entity::new(url, date, name, labels);
        proof {
            let want = link_entity(s.url->Some_0, s.date->Some_0, s.parts, s.labels);
            assert(entity@.names =~= want.names);
            assert(entity@ == want);
            lemma_upsert_view(c, entity@);
        }
        let id = coll.upsert(entity);
        let ghost c1 = coll@;
        if self.parents.len() > 0 {
            let p = self.parents[self.parents.len() - 1];
            assert(s.parents.last() == p.0);
            coll.add_edges(p, id);
        }
        self.url = None;
        self.parts = Vec::new();
        self.maybe_parent = Some(id);
        proof {
            assert(self@.parts =~= Seq::<Seq<char>>::empty());
            assert(self@ == MdStateView { url: None, parts: Seq::empty(), maybe_parent: Some(id.0), ..s });
            assert forall|i: int| 0 <= i < self@.parents.len() implies self@.parents[i] < coll@.nodes.len() by {
                assert(s.parents[i] < c.nodes.len());
            }
        }
        Ok(())
    }

    fn step(&mut self, coll: &mut Collection, e: &MdEvent) -> (r: Result<(), Error>)
        requires
            old(coll).wf(),
            md_state_ok(old(self)@, old(coll)@.nodes.len() as int),
        ensures
            final(coll).wf(),
            match r {
                Ok(()) => {
                    &&& md_step(old(self)@, old(coll)@, *e) == Some((final(self)@, final(coll)@))
                    &&& md_state_ok(final(self)@, final(coll)@.nodes.len() as int)
                },
                Err(_) => md_step(old(self)@, old(coll)@, *e) is None,
            },
    {
        let ghost s = self@;
        match e {
            MdEvent::HeadingStart(level) => {
                if *level <= 1 {
                    *self = MdState::new();
                    self.context = Context::Heading;
                } else {
                    self.context = Context::Heading;
                    self.level = *level;
                    self.labels.truncate(*level - 2);
                    assert(self@.labels =~= truncated(s.labels, *level - 2));
                }
                Ok(())
            },
            MdEvent::ListStart => {
                self.context = Context::Other;
                match self.maybe_parent {
                    Some(p) => {
                        self.parents.push(p);
                        assert(self@.parents =~= s.parents.push(p.0));
                    },
                    None => {},
                }
                Ok(())
            },
            MdEvent::LinkStart(kind, dest) => {
                let url = match Url::parse(dest.as_str()) {
                    Ok(u) => u,
                    Err(e) => {
                        return Err(e);
                    },
                };
                self.context = match kind {
                    LinkKind::Named => Context::NamedLink,
                    LinkKind::Bare => Context::Other,
                };
                self.parts = Vec::new();
                self.url = Some(url);
                assert(self@.parts =~= Seq::<Seq<char>>::empty());
                Ok(())
            },
            MdEvent::OtherStart => {
                self.context = Context::Other;
                Ok(())
            },
            MdEvent::Text(t) => {
                match self.context {
                    Context::Heading => {
                        if self.level <= 1 {
                            match parse_date_with(t.as_str(), DATE_FORMAT) {
                                Some(d) => {
                                    self.date = Some(Time::new(d));
                                },
                                None => {
                                    return Err(Error::MalformedDate(t.clone()));
                                },
                            }
                        } else {
                            self.labels.push(Label::new(t.clone()));
                            assert(self@.labels =~= s.labels.push(t@));
                        }
                    },
                    Context::NamedLink => {
                        self.parts.push(t.clone());
                        assert(self@.parts =~= s.parts.push(t@));
                    },
                    _ => {},
                }
                Ok(())
            },
            MdEvent::Code(t) => {
                if self.context == Context::NamedLink {
                    let mut x = String::from_str("`");
                    x.append(t.as_str());
                    x.append("`");
                    proof {
                        reveal_strlit("`");
                    }
                    assert(x@ =~= seq!['`'] + t@ + seq!['`']);
                    self.parts.push(x);
                    assert(self@.parts =~= s.parts.push(seq!['`'] + t@ + seq!['`']));
                }
                Ok(())
            },
            MdEvent::ListEnd => {
                if self.parents.len() > 0 {
                    self.parents.pop();
                    assert(self@.parents =~= s.parents.drop_last());
                }
                self.maybe_parent = None;
                Ok(())
            },
            MdEvent::LinkEnd => self.save_entity(coll),
            MdEvent::Other => Ok(()),
        }
    }
}

/// Reads a journal from its event stream: one entity per closed link, labels from the
/// headings in force, and an edge pair between a link and the one its sub-list hangs from.
pub fn from_markdown_events(events: &Vec<MdEvent>) -> (r: Result<Collection, Error>)
    ensures
        match r {
            Ok(c) => c.wf() && (md_run(md_initial(), empty_view(), events@) matches Some((_, cv)) && cv == c@),
            Err(_) => md_run(md_initial(), empty_view(), events@) is None,
        },
{
    let mut coll = Collection::new();
    let mut state = MdState::new();
    let mut i: usize = 0;
    assert(events@.subrange(0, events@.len() as int) =~= events@);
    while i < events.len()
        invariant
            0 <= i <= events.len(),
            coll.wf(),
            md_state_ok(state@, coll@.nodes.len() as int),
            md_run(md_initial(), empty_view(), events@) == md_run(state@, coll@, events@.subrange(i as int, events@.len() as int)),
        decreases events.len() - i,
    {
        let ghost rest = events@.subrange(i as int, events@.len() as int);
        assert(rest[0] == events@[i as int]);
        assert(rest.drop_first() =~= events@.subrange(i + 1, events@.len() as int));
        match state.step(&mut coll, &events[i]) {
            Ok(()) => {},
            Err(e) => {
                return Err(e);
            },
        }
        i += 1;
    }
    Ok(coll)
}

impl Collection {
    /// Builds a store from a markdown bookmark journal.
    pub fn from_markdown(input: &str) -> (r: Result<Collection, Error>)
        ensures
            match r {
                Ok(c) => c.wf() && (md_run(md_initial(), empty_view(), markdown_tokens(input@)) matches Some((_, cv))
                    && cv == c@),
                Err(_) => md_run(md_initial(), empty_view(), markdown_tokens(input@)) is None,
            },
    {
        let events = markdown_events(input);
        from_markdown_events(&events)
    }
}

} // verus!
