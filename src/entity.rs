use vstd::prelude::*;

use crate::error::Error;
use crate::strings::{add_all_strings, add_string, distinct_strings, strings_set};

verus! {

// ---------------------------------------------------------------------------
// Outside functions the entity logic relies on.
// ---------------------------------------------------------------------------

/// What `url::Url::parse` makes of a text: the normalised serialization, or nothing.
pub uninterp spec fn url_serialization(s: Seq<char>) -> Option<Seq<char>>;

/// Relies on `url::Url::parse` and the URL's `String` form: parsing either fails or
/// yields a normalised serialization, which always starts with a scheme and `:`.
#[verifier::external_body]
fn parse_url_text(s: &str) -> (r: Option<String>)
    ensures
        match r {
            Some(u) => url_serialization(s@) == Some(u@) && u@.len() > 0,
            None => url_serialization(s@) is None,
        },
{
    url::Url::parse(s).ok().map(String::from)
}

/// What `str::parse::<i64>` makes of a text.
pub uninterp spec fn decimal_value(s: Seq<char>) -> Option<i64>;

/// Relies on `str::parse::<i64>`: the result depends on the text alone.
#[verifier::external_body]
fn parse_i64(s: &str) -> (r: Option<i64>)
    ensures
        r == decimal_value(s@),
{
    s.parse::<i64>().ok()
}

/// Whether `chrono` can represent the instant this many seconds after the epoch.
pub uninterp spec fn representable_timestamp(secs: i64) -> bool;

/// Relies on `chrono::DateTime::from_timestamp`: it succeeds exactly on the representable range.
#[verifier::external_body]
fn timestamp_fits(secs: i64) -> (r: bool)
    ensures
        r == representable_timestamp(secs),
{
    chrono::DateTime::from_timestamp(secs, 0).is_some()
}

/// The instant an RFC 3339 text names, in seconds since the epoch, as `chrono` reads it.
pub uninterp spec fn rfc3339_seconds(s: Seq<char>) -> Option<i64>;

/// Relies on `chrono::DateTime::parse_from_rfc3339`: the instant a text names, offset
/// applied, as whole seconds since the epoch.
#[verifier::external_body]
fn parse_rfc3339(s: &str) -> (r: Option<i64>)
    ensures
        r == rfc3339_seconds(s@),
{
    match chrono::DateTime::parse_from_rfc3339(s) {
        Ok(t) => Some(t.timestamp()),
        Err(_) => None,
    }
}

/// What `str::trim` keeps of a text.
pub uninterp spec fn trimmed(s: Seq<char>) -> Seq<char>;

/// Relies on `str::trim`: leading and trailing white space removed, the result depending
/// on the text alone.
#[verifier::external_body]
pub(crate) fn trim_text(s: &str) -> (r: String)
    ensures
        r@ == trimmed(s@),
{
    s.trim().to_string()
}

// ---------------------------------------------------------------------------
// Value types.
// ---------------------------------------------------------------------------

/// A normalised URL, the key of an entity. Its text is never empty.
#[derive(Debug, PartialEq, Eq, PartialOrd, Ord, Hash)]
pub struct Url(String);

impl Url {
    #[verifier::type_invariant]
    spec fn non_empty(&self) -> bool {
        self.0@.len() > 0
    }
}

impl View for Url {
    type V = Seq<char>;

    closed spec fn view(&self) -> Seq<char> {
        self.0@
    }
}

impl Url {
    /// Parses and normalises a URL.
    pub fn parse(s: &str) -> (r: Result<Url, Error>)
        ensures
            match r {
                Ok(u) => url_serialization(s@) == Some(u@) && u@.len() > 0,
                Err(e) => url_serialization(s@) is None && e == Error::MalformedUrl(e->MalformedUrl_0)
                    && e->MalformedUrl_0@ == s@,
            },
    {
        match parse_url_text(s) {
            Some(u) => Ok(Url(u)),
            None => Err(Error::MalformedUrl(s.to_owned())),
        }
    }

    pub fn as_str(&self) -> (r: &str)
        ensures
            r@ == self@,
    {
        self.0.as_str()
    }

    pub fn duplicate(&self) -> (r: Url)
        ensures
            r@ == self@,
    {
        proof {
            use_type_invariant(self);
        }
        Url(self.0.clone())
    }
}

/// A point in time, in whole seconds since the Unix epoch.
#[derive(Debug, Clone, Copy, PartialEq, Eq, Structural, PartialOrd, Ord, Hash)]
pub struct Time(pub i64);

impl Time {
    pub fn new(seconds: i64) -> (r: Time)
        ensures
            r.0 == seconds,
    {
        Time(seconds)
    }

    /// The epoch itself, the creation time of a bookmark that gives none.
    pub fn epoch() -> (r: Time)
        ensures
            r.0 == 0,
    {
        Time(0)
    }

    pub fn seconds(&self) -> (r: i64)
        ensures
            r == self.0,
    {
        self.0
    }

    /// Parses a decimal count of seconds since the epoch.
    pub fn parse_timestamp(s: &str) -> (r: Result<Time, Error>)
        ensures
            match r {
                Ok(t) => decimal_value(s@) == Some(t.0) && representable_timestamp(t.0),
                Err(e) => !(decimal_value(s@) matches Some(v) && representable_timestamp(v))
                    && e is MalformedTimestamp && e->MalformedTimestamp_0@ == s@,
            },
    {
        match parse_i64(s) {
            Some(v) => {
                if timestamp_fits(v) {
                    Ok(Time(v))
                } else {
                    Err(Error::MalformedTimestamp(s.to_owned()))
                }
            },
            None => Err(Error::MalformedTimestamp(s.to_owned())),
        }
    }
}

impl Time {
    /// Parses a time given either as decimal seconds since the epoch or as an RFC 3339
    /// text; surrounding white space is ignored.
    pub fn parse_flexible(s: &str) -> (r: Result<Time, Error>)
        ensures
            match decimal_value(trimmed(s@)) {
                Some(v) => match r {
                    Ok(t) => t.0 == v && representable_timestamp(v),
                    Err(e) => !representable_timestamp(v) && e is MalformedTimestamp,
                },
                None => match r {
                    Ok(t) => rfc3339_seconds(trimmed(s@)) == Some(t.0),
                    Err(e) => rfc3339_seconds(trimmed(s@)) is None && e is MalformedTimestamp,
                },
            },
    {
        let t = trim_text(s);
        match parse_i64(t.as_str()) {
            Some(v) => {
                if timestamp_fits(v) {
                    Ok(Time(v))
                } else {
                    Err(Error::MalformedTimestamp(t))
                }
            },
            None => match parse_rfc3339(t.as_str()) {
                Some(v) => Ok(Time(v)),
                None => Err(Error::MalformedTimestamp(t)),
            },
        }
    }
}

/// A display name of a bookmark.
#[derive(Debug, PartialEq, Eq, PartialOrd, Ord, Hash)]
pub struct Name(String);

impl View for Name {
    type V = Seq<char>;

    closed spec fn view(&self) -> Seq<char> {
        self.0@
    }
}

impl Name {
    pub fn new(name: String) -> (r: Name)
        ensures
            r@ == name@,
    {
        Name(name)
    }

    pub fn as_str(&self) -> (r: &str)
        ensures
            r@ == self@,
    {
        self.0.as_str()
    }

    fn into_string(self) -> (r: String)
        ensures
            r@ == self@,
    {
        self.0
    }
}

/// A label (folder or heading) attached to a bookmark.
#[derive(Debug, PartialEq, Eq, PartialOrd, Ord, Hash)]
pub struct Label(String);

impl View for Label {
    type V = Seq<char>;

    closed spec fn view(&self) -> Seq<char> {
        self.0@
    }
}

impl Label {
    pub fn new(label: String) -> (r: Label)
        ensures
            r@ == label@,
    {
        Label(label)
    }

    pub fn as_str(&self) -> (r: &str)
        ensures
            r@ == self@,
    {
        self.0.as_str()
    }

    pub fn duplicate(&self) -> (r: Label)
        ensures
            r@ == self@,
    {
        Label(self.0.clone())
    }
}

/// Long-form text attached to a bookmark.
#[derive(Debug, PartialEq, Eq, PartialOrd, Ord, Hash)]
pub struct Extended(String);

impl View for Extended {
    type V = Seq<char>;

    closed spec fn view(&self) -> Seq<char> {
        self.0@
    }
}

impl Extended {
    pub fn new(extended: String) -> (r: Extended)
        ensures
            r@ == extended@,
    {
        Extended(extended)
    }

    pub fn as_str(&self) -> (r: &str)
        ensures
            r@ == self@,
    {
        self.0.as_str()
    }

    pub fn duplicate(&self) -> (r: Extended)
        ensures
            r@ == self@,
    {
        Extended(self.0.clone())
    }
}

// ---------------------------------------------------------------------------
// The mathematical model of an entity.
// ---------------------------------------------------------------------------

/// An entity as plain values: texts as character sequences, times as seconds.
pub struct EntityView {
    pub url: Seq<char>,
    pub created_at: i64,
    pub updated_at: Seq<i64>,
    pub names: Set<Seq<char>>,
    pub labels: Set<Seq<char>>,
    pub shared: Option<bool>,
    pub to_read: Option<bool>,
    pub is_feed: Option<bool>,
    pub extended: Option<Seq<char>>,
    pub last_visited_at: Option<i64>,
}

pub open spec fn times_view(v: Seq<Time>) -> Seq<i64> {
    v.map_values(|t: Time| t.0)
}

pub open spec fn sorted(s: Seq<i64>) -> bool {
    forall|i: int, j: int| 0 <= i <= j < s.len() ==> s[i] <= s[j]
}

/// `t` placed into the ascending sequence `s`, after the elements equal to it.
pub open spec fn sorted_insert(s: Seq<i64>, t: i64) -> Seq<i64>
    decreases s.len(),
{
    if s.len() == 0 {
        seq![t]
    } else if t < s[0] {
        seq![t] + s
    } else {
        seq![s[0]] + sorted_insert(s.drop_first(), t)
    }
}

/// Merge of two optionally known booleans: a known side wins over an unknown one, and
/// `true` wins over `false`.
pub open spec fn flag_or(a: Option<bool>, b: Option<bool>) -> Option<bool> {
    match (a, b) {
        (None, _) => b,
        (Some(true), _) => Some(true),
        (Some(false), None) => Some(false),
        (Some(false), Some(y)) => Some(y),
    }
}

/// The later of two optional times, or the only one known.
pub open spec fn latest(a: Option<i64>, b: Option<i64>) -> Option<i64> {
    match (a, b) {
        (None, _) => b,
        (Some(x), None) => Some(x),
        (Some(x), Some(y)) => Some(if x < y { y } else { x }),
    }
}

pub open spec fn min_time(a: i64, b: i64) -> i64 {
    if b < a { b } else { a }
}

pub open spec fn max_time(a: i64, b: i64) -> i64 {
    if b < a { a } else { b }
}

/// What `e` becomes once the observation `o` has been merged into it.
pub open spec fn merge_view(e: EntityView, o: EntityView) -> EntityView {
    EntityView {
        url: e.url,
        created_at: min_time(e.created_at, o.created_at),
        updated_at: sorted_insert(e.updated_at, max_time(e.created_at, o.created_at)),
        names: e.names.union(o.names),
        labels: e.labels.union(o.labels),
        shared: flag_or(e.shared, o.shared),
        to_read: flag_or(e.to_read, o.to_read),
        is_feed: flag_or(e.is_feed, o.is_feed),
        extended: if e.extended is Some { e.extended } else { o.extended },
        last_visited_at: latest(e.last_visited_at, o.last_visited_at),
    }
}

pub proof fn lemma_sorted_insert(s: Seq<i64>, t: i64, k: int)
    requires
        sorted(s),
        0 <= k <= s.len(),
        forall|j: int| 0 <= j < k ==> s[j] <= t,
        k < s.len() ==> t < s[k],
    ensures
        sorted_insert(s, t) == s.insert(k, t),
        sorted(s.insert(k, t)),
    decreases s.len(),
{
    if s.len() == 0 {
        assert(s.insert(k, t) =~= seq![t]);
    } else if t < s[0] {
        assert(s.insert(k, t) =~= seq![t] + s);
    } else {
        lemma_sorted_insert(s.drop_first(), t, k - 1);
        assert(s.insert(k, t) =~= seq![s[0]] + s.drop_first().insert(k - 1, t));
    }
    let r = s.insert(k, t);
    assert forall|i: int, j: int| 0 <= i <= j < r.len() implies r[i] <= r[j] by {
        if k < s.len() && j > k {
            assert(s[k] <= s[j - 1]);
        }
    }
}

/// A position at which `t` enters the ascending sequence `s`.
pub proof fn lemma_sorted_insert_position(s: Seq<i64>, t: i64) -> (k: int)
    requires
        sorted(s),
    ensures
        0 <= k <= s.len(),
        forall|j: int| 0 <= j < k ==> s[j] <= t,
        k < s.len() ==> t < s[k],
        sorted_insert(s, t) == s.insert(k, t),
        sorted(s.insert(k, t)),
    decreases s.len(),
{
    let k = if s.len() == 0 || t < s[0] {
        0
    } else {
        let k1 = lemma_sorted_insert_position(s.drop_first(), t);
        assert forall|j: int| 0 <= j < k1 + 1 implies s[j] <= t by {
            if j > 0 {
                assert(s.drop_first()[j - 1] == s[j]);
            }
        }
        if k1 + 1 < s.len() {
            assert(s.drop_first()[k1] == s[k1 + 1]);
        }
        k1 + 1
    };
    lemma_sorted_insert(s, t, k);
    k
}

/// A bookmarked resource, keyed by its URL.
#[derive(Debug)]
pub struct Entity {
    url: Url,
    created_at: Time,
    updated_at: Vec<Time>,
    names: Vec<String>,
    labels: Vec<String>,
    shared: Option<bool>,
    to_read: Option<bool>,
    is_feed: Option<bool>,
    extended: Option<Extended>,
    last_visited_at: Option<Time>,
}

impl View for Entity {
    type V = EntityView;

    closed spec fn view(&self) -> EntityView {
        EntityView {
            url: self.url@,
            created_at: self.created_at.0,
            updated_at: times_view(self.updated_at@),
            names: strings_set(self.names@),
            labels: strings_set(self.labels@),
            shared: self.shared,
            to_read: self.to_read,
            is_feed: self.is_feed,
            extended: match self.extended {
                Some(x) => Some(x@),
                None => None,
            },
            last_visited_at: match self.last_visited_at {
                Some(t) => Some(t.0),
                None => None,
            },
        }
    }
}

/// The set of texts held by a vector of labels.
pub open spec fn labels_set(v: Seq<Label>) -> Set<Seq<char>> {
    Set::new(|s: Seq<char>| exists|i: int| 0 <= i < v.len() && v[i]@ == s)
}

fn label_texts(v: &Vec<Label>) -> (r: Vec<String>)
    ensures
        distinct_strings(r@),
        strings_set(r@) == labels_set(v@),
{
    let mut r: Vec<String> = Vec::new();
    let mut i: usize = 0;
    while i < v.len()
        invariant
            0 <= i <= v.len(),
            distinct_strings(r@),
            strings_set(r@) == labels_set(v@.subrange(0, i as int)),
        decreases v.len() - i,
    {
        add_string(&mut r, v[i].0.clone());
        let ghost lo = v@.subrange(0, i as int);
        let ghost hi = v@.subrange(0, i + 1);
        assert(labels_set(hi) =~= labels_set(lo).insert(v@[i as int]@)) by {
            assert(hi[i as int] == v@[i as int]);
            assert forall|t: Seq<char>| labels_set(hi).contains(t) implies
                labels_set(lo).insert(v@[i as int]@).contains(t) by {
                let k = choose|k: int| 0 <= k < hi.len() && #[trigger] hi[k]@ == t;
                if k < i {
                    assert(lo[k] == hi[k]);
                }
            }
            assert forall|t: Seq<char>| labels_set(lo).contains(t) implies
                labels_set(hi).contains(t) by {
                let k = choose|k: int| 0 <= k < lo.len() && #[trigger] lo[k]@ == t;
                assert(hi[k] == lo[k]);
            }
        }
        i += 1;
    }
    assert(v@.subrange(0, v.len() as int) =~= v@);
    r
}

/// The set of texts held by a vector of names.
pub open spec fn names_set(v: Seq<Name>) -> Set<Seq<char>> {
    Set::new(|s: Seq<char>| exists|i: int| 0 <= i < v.len() && v[i]@ == s)
}

fn name_texts(v: &Vec<Name>) -> (r: Vec<String>)
    ensures
        distinct_strings(r@),
        strings_set(r@) == names_set(v@),
{
    let mut r: Vec<String> = Vec::new();
    let mut i: usize = 0;
    while i < v.len()
        invariant
            0 <= i <= v.len(),
            distinct_strings(r@),
            strings_set(r@) == names_set(v@.subrange(0, i as int)),
        decreases v.len() - i,
    {
        add_string(&mut r, v[i].0.clone());
        let ghost lo = v@.subrange(0, i as int);
        let ghost hi = v@.subrange(0, i + 1);
        assert(names_set(hi) =~= names_set(lo).insert(v@[i as int]@)) by {
            assert(hi[i as int] == v@[i as int]);
            assert forall|t: Seq<char>| names_set(hi).contains(t) implies
                names_set(lo).insert(v@[i as int]@).contains(t) by {
                let k = choose|k: int| 0 <= k < hi.len() && #[trigger] hi[k]@ == t;
                if k < i {
                    assert(lo[k] == hi[k]);
                }
            }
            assert forall|t: Seq<char>| names_set(lo).contains(t) implies
                names_set(hi).contains(t) by {
                let k = choose|k: int| 0 <= k < lo.len() && #[trigger] lo[k]@ == t;
                assert(hi[k] == lo[k]);
            }
        }
        i += 1;
    }
    assert(v@.subrange(0, v.len() as int) =~= v@);
    r
}

fn insert_time(v: &mut Vec<Time>, t: Time)
    requires
        sorted(times_view(old(v)@)),
    ensures
        sorted(times_view(final(v)@)),
        times_view(final(v)@) == sorted_insert(times_view(old(v)@), t.0),
{
    let ghost s = times_view(v@);
    let mut k: usize = 0;
    while k < v.len() && v[k].0 <= t.0
        invariant
            0 <= k <= v.len(),
            s == times_view(v@),
            forall|j: int| 0 <= j < k ==> s[j] <= t.0,
        decreases v.len() - k,
    {
        k += 1;
    }
    proof {
        lemma_sorted_insert(s, t.0, k as int);
    }
    v.insert(k, t);
    assert(times_view(v@) =~= s.insert(k as int, t.0));
}

impl Entity {
    /// Well-formed: a non-empty URL, ascending update times, names and labels without
    /// repeats.
    pub open spec fn wf(&self) -> bool {
        &&& self@.url.len() > 0
        &&& sorted(self@.updated_at)
        &&& self.distinct()
    }

    pub closed spec fn distinct(&self) -> bool {
        distinct_strings(self.names@) && distinct_strings(self.labels@)
    }

    /// A first observation of a URL, with no flags known.
    pub fn new(url: Url, created_at: Time, maybe_name: Option<Name>, labels: Vec<Label>) -> (r:
        Entity)
        ensures
            r.wf(),
            r@.url == url@,
            r@.created_at == created_at.0,
            r@.updated_at == Seq::<i64>::empty(),
            r@.names == match maybe_name {
                Some(n) => set![n@],
                None => Set::<Seq<char>>::empty(),
            },
            r@.labels == labels_set(labels@),
            r@.shared is None,
            r@.to_read is None,
            r@.is_feed is None,
            r@.extended is None,
            r@.last_visited_at is None,
    {
        proof {
            use_type_invariant(&url);
        }
        let mut names: Vec<String> = Vec::new();
        match maybe_name {
            Some(n) => {
                add_string(&mut names, n.into_string());
            },
            None => {},
        }
        let label_strings = label_texts(&labels);
        let r = Entity {
            url,
            created_at,
            updated_at: Vec::new(),
            names,
            labels: label_strings,
            shared: None,
            to_read: None,
            is_feed: None,
            extended: None,
            last_visited_at: None,
        };
        assert(r@.names =~= match maybe_name {
            Some(n) => set![n@],
            None => Set::<Seq<char>>::empty(),
        });
        assert(times_view(r.updated_at@) =~= Seq::<i64>::empty());
        r
    }
}


impl Entity {
    /// Records one more observation time and more names and labels. The earlier of the
    /// two times stays the creation time; the other joins the update times in order.
    pub fn update(&mut self, updated_at: Time, names: &Vec<Name>, labels: &Vec<Label>)
        requires
            old(self).wf(),
        ensures
            final(self).wf(),
            final(self)@ == (EntityView {
                created_at: min_time(old(self)@.created_at, updated_at.0),
                updated_at: sorted_insert(
                    old(self)@.updated_at,
                    max_time(old(self)@.created_at, updated_at.0),
                ),
                names: old(self)@.names.union(names_set(names@)),
                labels: old(self)@.labels.union(labels_set(labels@)),
                ..old(self)@
            }),
    {
        let name_strings = name_texts(names);
        let label_strings = label_texts(labels);
        self.observe(updated_at, &name_strings, &label_strings);
    }

    fn observe(&mut self, t: Time, names: &Vec<String>, labels: &Vec<String>)
        requires
            old(self).wf(),
        ensures
            final(self).wf(),
            final(self)@ == (EntityView {
                created_at: min_time(old(self)@.created_at, t.0),
                updated_at: sorted_insert(old(self)@.updated_at, max_time(old(self)@.created_at, t.0)),
                names: old(self)@.names.union(strings_set(names@)),
                labels: old(self)@.labels.union(strings_set(labels@)),
                ..old(self)@
            }),
    {
        if t.0 < self.created_at.0 {
            let previous = self.created_at;
            insert_time(&mut self.updated_at, previous);
            self.created_at = t;
        } else {
            insert_time(&mut self.updated_at, t);
        }
        add_all_strings(&mut self.names, names);
        add_all_strings(&mut self.labels, labels);
    }

    /// Merges a later observation of the same URL into this entity.
    pub fn merge(&mut self, other: Entity)
        requires
            old(self).wf(),
            other.wf(),
        ensures
            final(self).wf(),
            final(self)@ == merge_view(old(self)@, other@),
    {
        self.observe(other.created_at, &other.names, &other.labels);
        self.shared = flag_merge(self.shared, other.shared);
        self.to_read = flag_merge(self.to_read, other.to_read);
        self.is_feed = flag_merge(self.is_feed, other.is_feed);
        if self.extended.is_none() {
            self.extended = other.extended;
        }
        self.last_visited_at = match (self.last_visited_at, other.last_visited_at) {
            (None, b) => b,
            (Some(a), None) => Some(a),
            (Some(a), Some(b)) => Some(if a.0 < b.0 { b } else { a }),
        };
    }

    pub fn url(&self) -> (r: &Url)
        ensures
            r@ == self@.url,
    {
        &self.url
    }

    pub fn created_at(&self) -> (r: Time)
        ensures
            r.0 == self@.created_at,
    {
        self.created_at
    }

    pub fn updated_at(&self) -> (r: &[Time])
        ensures
            times_view(r@) == self@.updated_at,
    {
        self.updated_at.as_slice()
    }

    pub fn names(&self) -> (r: Vec<Name>)
        ensures
            names_set(r@) == self@.names,
    {
        let mut r: Vec<Name> = Vec::new();
        let mut i: usize = 0;
        while i < self.names.len()
            invariant
                0 <= i <= self.names.len(),
                r@.len() == i,
                forall|k: int| 0 <= k < i ==> r@[k]@ == self.names@[k]@,
            decreases self.names.len() - i,
        {
            r.push(Name(self.names[i].clone()));
            i += 1;
        }
        assert(names_set(r@) =~= strings_set(self.names@)) by {
            assert forall|t: Seq<char>| strings_set(self.names@).contains(t) implies names_set(r@).contains(t) by {
                let k = choose|k: int| 0 <= k < self.names@.len() && #[trigger] self.names@[k]@ == t;
                assert(r@[k]@ == t);
            }
        }
        r
    }

    pub fn labels(&self) -> (r: Vec<Label>)
        ensures
            labels_set(r@) == self@.labels,
    {
        let mut r: Vec<Label> = Vec::new();
        let mut i: usize = 0;
        while i < self.labels.len()
            invariant
                0 <= i <= self.labels.len(),
                r@.len() == i,
                forall|k: int| 0 <= k < i ==> r@[k]@ == self.labels@[k]@,
            decreases self.labels.len() - i,
        {
            r.push(Label(self.labels[i].clone()));
            i += 1;
        }
        assert(labels_set(r@) =~= strings_set(self.labels@)) by {
            assert forall|t: Seq<char>| strings_set(self.labels@).contains(t) implies labels_set(r@).contains(t) by {
                let k = choose|k: int| 0 <= k < self.labels@.len() && #[trigger] self.labels@[k]@ == t;
                assert(r@[k]@ == t);
            }
        }
        r
    }

    pub fn has_label(&self, label: &String) -> (r: bool)
        ensures
            r == self@.labels.contains(label@),
    {
        crate::strings::contains_string(&self.labels, label)
    }

    pub fn shared(&self) -> (r: Option<bool>)
        ensures
            r == self@.shared,
    {
        self.shared
    }

    pub fn to_read(&self) -> (r: Option<bool>)
        ensures
            r == self@.to_read,
    {
        self.to_read
    }

    pub fn is_feed(&self) -> (r: Option<bool>)
        ensures
            r == self@.is_feed,
    {
        self.is_feed
    }

    pub fn extended(&self) -> (r: Option<Extended>)
        ensures
            match r {
                Some(x) => self@.extended == Some(x@),
                None => self@.extended is None,
            },
    {
        match &self.extended {
            Some(x) => Some(x.duplicate()),
            None => None,
        }
    }

    pub fn last_visited_at(&self) -> (r: Option<Time>)
        ensures
            match r {
                Some(t) => self@.last_visited_at == Some(t.0),
                None => self@.last_visited_at is None,
            },
    {
        self.last_visited_at
    }
}

fn flag_merge(a: Option<bool>, b: Option<bool>) -> (r: Option<bool>)
    ensures
        r == flag_or(a, b),
{
    match a {
        None => b,
        Some(true) => Some(true),
        Some(false) => match b {
            None => Some(false),
            Some(y) => Some(y),
        },
    }
}


/// Where the mapping `m` sends the label `l`: the value of the last pair whose key is `l`.
pub open spec fn mapped_label(m: Seq<(String, String)>, l: Seq<char>) -> Option<Seq<char>>
    decreases m.len(),
{
    if m.len() == 0 {
        None
    } else if m.last().0@ == l {
        Some(m.last().1@)
    } else {
        mapped_label(m.drop_last(), l)
    }
}

/// A label set after migration: every label that is a key of `m` is replaced by the
/// label it maps to; the others stay.
pub open spec fn relabeled(labels: Set<Seq<char>>, m: Seq<(String, String)>) -> Set<Seq<char>> {
    Set::new(
        |x: Seq<char>|
            (labels.contains(x) && mapped_label(m, x) is None) || exists|l: Seq<char>|
                labels.contains(l) && mapped_label(m, l) == Some(x),
    )
}

fn lookup_label(m: &Vec<(String, String)>, l: &String) -> (r: Option<String>)
    ensures
        match r {
            Some(v) => mapped_label(m@, l@) == Some(v@),
            None => mapped_label(m@, l@) is None,
        },
{
    let mut i: usize = m.len();
    assert(m@.subrange(0, i as int) =~= m@);
    while i > 0
        invariant
            0 <= i <= m.len(),
            mapped_label(m@, l@) == mapped_label(m@.subrange(0, i as int), l@),
        decreases i,
    {
        let ghost pre = m@.subrange(0, i as int);
        i -= 1;
        assert(pre.drop_last() =~= m@.subrange(0, i as int));
        assert(pre.last() == m@[i as int]);
        if m[i].0 == *l {
            return Some(m[i].1.clone());
        }
    }
    None
}

impl Entity {
    /// Applies a label migration to this entity.
    pub fn relabel(&mut self, m: &Vec<(String, String)>)
        requires
            old(self).wf(),
        ensures
            final(self).wf(),
            final(self)@ == (EntityView { labels: relabeled(old(self)@.labels, m@), ..old(self)@ }),
    {
        let ghost ls = self.labels@;
        let mut kept: Vec<String> = Vec::new();
        let mut added: Vec<String> = Vec::new();
        let mut i: usize = 0;
        while i < self.labels.len()
            invariant
                0 <= i <= self.labels.len(),
                ls == self.labels@,
                distinct_strings(kept@),
                distinct_strings(added@),
                forall|x: Seq<char>| #[trigger] strings_set(kept@).contains(x) <==> exists|j: int|
                    0 <= j < i && ls[j]@ == x && mapped_label(m@, x) is None,
                forall|x: Seq<char>| #[trigger] strings_set(added@).contains(x) <==> exists|j: int|
                    0 <= j < i && mapped_label(m@, ls[j]@) == Some(x),
            decreases self.labels.len() - i,
        {
            match lookup_label(m, &self.labels[i]) {
                Some(v) => {
                    let ghost vv = v@;
                    let ghost before = strings_set(added@);
                    add_string(&mut added, v);
                    assert forall|x: Seq<char>| #[trigger] strings_set(added@).contains(x) <==> exists|j: int|
                        0 <= j < i + 1 && mapped_label(m@, ls[j]@) == Some(x) by {
                        if x == vv {
                            assert(mapped_label(m@, ls[i as int]@) == Some(x));
                        }
                        if before.contains(x) {
                            let j = choose|j: int| 0 <= j < i && mapped_label(m@, ls[j]@) == Some(x);
                            assert(0 <= j < i + 1 && mapped_label(m@, ls[j]@) == Some(x));
                        }
                        if exists|j: int| 0 <= j < i + 1 && mapped_label(m@, ls[j]@) == Some(x) {
                            let j = choose|j: int| 0 <= j < i + 1 && mapped_label(m@, ls[j]@) == Some(x);
                            if j < i {
                                assert(before.contains(x));
                            }
                        }
                    }
                    assert forall|x: Seq<char>| #[trigger] strings_set(kept@).contains(x) <==> exists|j: int|
                        0 <= j < i + 1 && ls[j]@ == x && mapped_label(m@, x) is None by {
                        if exists|j: int| 0 <= j < i + 1 && ls[j]@ == x && mapped_label(m@, x) is None {
                            let j = choose|j: int| 0 <= j < i + 1 && ls[j]@ == x && mapped_label(m@, x) is None;
                            assert(j != i);
                        }
                    }
                },
                None => {
                    let lv = self.labels[i].clone();
                    let ghost vv = lv@;
                    let ghost before = strings_set(kept@);
                    add_string(&mut kept, lv);
                    assert forall|x: Seq<char>| #[trigger] strings_set(kept@).contains(x) <==> exists|j: int|
                        0 <= j < i + 1 && ls[j]@ == x && mapped_label(m@, x) is None by {
                        if x == vv {
                            assert(ls[i as int]@ == x);
                        }
                        if before.contains(x) {
                            let j = choose|j: int| 0 <= j < i && ls[j]@ == x && mapped_label(m@, x) is None;
                            assert(0 <= j < i + 1);
                        }
                        if exists|j: int| 0 <= j < i + 1 && ls[j]@ == x && mapped_label(m@, x) is None {
                            let j = choose|j: int| 0 <= j < i + 1 && ls[j]@ == x && mapped_label(m@, x) is None;
                            if j < i {
                                assert(before.contains(x));
                            }
                        }
                    }
                    assert forall|x: Seq<char>| #[trigger] strings_set(added@).contains(x) <==> exists|j: int|
                        0 <= j < i + 1 && mapped_label(m@, ls[j]@) == Some(x) by {
                        if exists|j: int| 0 <= j < i + 1 && mapped_label(m@, ls[j]@) == Some(x) {
                            let j = choose|j: int| 0 <= j < i + 1 && mapped_label(m@, ls[j]@) == Some(x);
                            assert(j != i);
                        }
                    }
                },
            }
            i += 1;
        }
        add_all_strings(&mut kept, &added);
        proof {
            let target = relabeled(strings_set(ls), m@);
            assert forall|x: Seq<char>| strings_set(kept@).contains(x) <==> target.contains(x) by {
                if exists|j: int| 0 <= j < ls.len() && ls[j]@ == x && mapped_label(m@, x) is None {
                    let j = choose|j: int| 0 <= j < ls.len() && ls[j]@ == x && mapped_label(m@, x) is None;
                    assert(strings_set(ls).contains(x));
                }
                if exists|j: int| 0 <= j < ls.len() && mapped_label(m@, ls[j]@) == Some(x) {
                    let j = choose|j: int| 0 <= j < ls.len() && mapped_label(m@, ls[j]@) == Some(x);
                    assert(strings_set(ls).contains(ls[j]@));
                }
                if strings_set(ls).contains(x) && mapped_label(m@, x) is None {
                    let j = choose|j: int| 0 <= j < ls.len() && ls[j]@ == x;
                    assert(ls[j]@ == x && mapped_label(m@, x) is None);
                }
                if exists|l: Seq<char>| strings_set(ls).contains(l) && mapped_label(m@, l) == Some(x) {
                    let l = choose|l: Seq<char>| strings_set(ls).contains(l) && mapped_label(m@, l) == Some(x);
                    let j = choose|j: int| 0 <= j < ls.len() && ls[j]@ == l;
                    assert(mapped_label(m@, ls[j]@) == Some(x));
                }
            }
            assert(strings_set(kept@) =~= target);
        }
        self.labels = kept;
    }
}


// ---------------------------------------------------------------------------
// Building an entity from the attributes of a bookmark element.
// ---------------------------------------------------------------------------

/// The value of the first attribute named `key`.
pub open spec fn attr_lookup(attrs: Seq<(String, String)>, key: Seq<char>) -> Option<Seq<char>>
    decreases attrs.len(),
{
    if attrs.len() == 0 {
        None
    } else if attrs[0].0@ == key {
        Some(attrs[0].1@)
    } else {
        attr_lookup(attrs.drop_first(), key)
    }
}

/// A timestamp attribute is acceptable when absent, blank, or a representable time.
pub open spec fn time_attr_ok(v: Option<Seq<char>>) -> bool {
    match v {
        None => true,
        Some(x) => trimmed(x).len() == 0 || (decimal_value(trimmed(x)) matches Some(t)
            && representable_timestamp(t)),
    }
}

/// The time an acceptable timestamp attribute gives, if it is not blank.
pub open spec fn time_attr(v: Option<Seq<char>>) -> Option<i64> {
    match v {
        None => None,
        Some(x) => if trimmed(x).len() == 0 {
            None
        } else {
            decimal_value(trimmed(x))
        },
    }
}

/// The pieces of `s` between the occurrences of `sep`.
pub open spec fn split_on(s: Seq<char>, sep: char) -> Seq<Seq<char>>
    decreases s.len(),
{
    if s.len() == 0 {
        seq![Seq::<char>::empty()]
    } else {
        let init = split_on(s.drop_last(), sep);
        if s.last() == sep {
            init.push(Seq::<char>::empty())
        } else {
            init.update(init.len() - 1, init.last().push(s.last()))
        }
    }
}

pub proof fn lemma_split_on_len(s: Seq<char>, sep: char)
    ensures
        split_on(s, sep).len() >= 1,
    decreases s.len(),
{
    if s.len() > 0 {
        lemma_split_on_len(s.drop_last(), sep);
    }
}

/// The comma-separated pieces of the tags attribute, when it is present and not blank.
pub open spec fn tag_pieces(attrs: Seq<(String, String)>) -> Seq<Seq<char>> {
    match attr_lookup(attrs, "tags"@) {
        Some(v) => if trimmed(v).len() == 0 {
            Seq::empty()
        } else {
            split_on(v, ',')
        },
        None => Seq::empty(),
    }
}

/// The labels that tag pieces give: trimmed, non-blank, and not the to-read marker.
pub open spec fn tag_labels(pieces: Seq<Seq<char>>) -> Set<Seq<char>> {
    Set::new(
        |x: Seq<char>|
            exists|i: int|
                0 <= i < pieces.len() && trimmed(pieces[i]) == x && x.len() > 0 && x != "toread"@,
    )
}

pub open spec fn has_toread_tag(pieces: Seq<Seq<char>>) -> bool {
    exists|i: int| 0 <= i < pieces.len() && trimmed(pieces[i]) == "toread"@
}

pub open spec fn shared_attr(attrs: Seq<(String, String)>) -> Option<bool> {
    match attr_lookup(attrs, "private"@) {
        Some(v) => Some(trimmed(v) != "1"@),
        None => Some(true),
    }
}

pub open spec fn to_read_attr(attrs: Seq<(String, String)>) -> Option<bool> {
    if has_toread_tag(tag_pieces(attrs)) {
        Some(true)
    } else {
        match attr_lookup(attrs, "toread"@) {
            Some(v) => Some(trimmed(v) == "1"@),
            None => None,
        }
    }
}

pub open spec fn feed_attr(attrs: Seq<(String, String)>) -> Option<bool> {
    match attr_lookup(attrs, "feed"@) {
        Some(v) => Some(trimmed(v) == "true"@),
        None => None,
    }
}

/// The attributes describe a bookmark: a parsable href and acceptable timestamps.
pub open spec fn attrs_ok(attrs: Seq<(String, String)>) -> bool {
    &&& attr_lookup(attrs, "href"@) matches Some(h) && url_serialization(h) is Some
    &&& time_attr_ok(attr_lookup(attrs, "add_date"@))
    &&& time_attr_ok(attr_lookup(attrs, "last_modified"@))
    &&& time_attr_ok(attr_lookup(attrs, "last_visit"@))
}

/// The entity that acceptable attributes describe.
pub open spec fn attrs_view(
    attrs: Seq<(String, String)>,
    names: Set<Seq<char>>,
    labels: Set<Seq<char>>,
    extended: Option<Seq<char>>,
) -> EntityView {
    EntityView {
        url: url_serialization(attr_lookup(attrs, "href"@)->Some_0)->Some_0,
        created_at: match time_attr(attr_lookup(attrs, "add_date"@)) {
            Some(t) => t,
            None => 0,
        },
        updated_at: match time_attr(attr_lookup(attrs, "last_modified"@)) {
            Some(t) => seq![t],
            None => Seq::empty(),
        },
        names: names,
        labels: labels.union(tag_labels(tag_pieces(attrs))),
        shared: shared_attr(attrs),
        to_read: to_read_attr(attrs),
        is_feed: feed_attr(attrs),
        extended: extended,
        last_visited_at: time_attr(attr_lookup(attrs, "last_visit"@)),
    }
}

fn find_attr<'a>(attrs: &'a Vec<(String, String)>, key: &String) -> (r: Option<&'a String>)
    ensures
        match r {
            Some(v) => attr_lookup(attrs@, key@) == Some(v@),
            None => attr_lookup(attrs@, key@) is None,
        },
{
    let mut i: usize = 0;
    assert(attrs@.subrange(0, attrs@.len() as int) =~= attrs@);
    while i < attrs.len()
        invariant
            0 <= i <= attrs.len(),
            attr_lookup(attrs@, key@) == attr_lookup(attrs@.subrange(i as int, attrs@.len() as int), key@),
        decreases attrs.len() - i,
    {
        let ghost rest = attrs@.subrange(i as int, attrs@.len() as int);
        assert(rest.drop_first() =~= attrs@.subrange(i + 1, attrs@.len() as int));
        assert(rest[0] == attrs@[i as int]);
        if attrs[i].0 == *key {
            return Some(&attrs[i].1);
        }
        i += 1;
    }
    None
}

/// Reads an optional timestamp attribute; blank counts as absent.
fn read_time_attr(v: Option<&String>) -> (r: Result<Option<Time>, Error>)
    ensures
        match v {
            Some(x) => match r {
                Ok(t) => time_attr_ok(Some(x@)) && match t {
                    Some(t) => time_attr(Some(x@)) == Some(t.0),
                    None => time_attr(Some(x@)) is None,
                },
                Err(e) => !time_attr_ok(Some(x@)) && e is MalformedTimestamp
                    && e->MalformedTimestamp_0@ == trimmed(x@),
            },
            None => r == Ok::<Option<Time>, Error>(None),
        },
{
    match v {
        None => Ok(None),
        Some(x) => {
            let t = trim_text(x.as_str());
            if t.unicode_len() == 0 {
                Ok(None)
            } else {
                match Time::parse_timestamp(t.as_str()) {
                    Ok(time) => Ok(Some(time)),
                    Err(e) => Err(e),
                }
            }
        },
    }
}

proof fn lemma_tag_push(done: Seq<Seq<char>>, p: Seq<char>)
    ensures
        tag_labels(done.push(p)) == if trimmed(p).len() > 0 && trimmed(p) != "toread"@ {
            tag_labels(done).insert(trimmed(p))
        } else {
            tag_labels(done)
        },
        has_toread_tag(done.push(p)) == (has_toread_tag(done) || trimmed(p) == "toread"@),
{
    let next = done.push(p);
    assert(next[done.len() as int] == p);
    assert forall|x: Seq<char>| tag_labels(next).contains(x) implies tag_labels(done).contains(x) || (x
        == trimmed(p) && x.len() > 0 && x != "toread"@) by {
        let k = choose|k: int|
            0 <= k < next.len() && trimmed(next[k]) == x && x.len() > 0 && x != "toread"@;
        if k < done.len() {
            assert(next[k] == done[k]);
        }
    }
    assert forall|x: Seq<char>| tag_labels(done).contains(x) implies tag_labels(next).contains(x) by {
        let k = choose|k: int|
            0 <= k < done.len() && trimmed(done[k]) == x && x.len() > 0 && x != "toread"@;
        assert(next[k] == done[k]);
    }
    assert(tag_labels(next) =~= if trimmed(p).len() > 0 && trimmed(p) != "toread"@ {
        tag_labels(done).insert(trimmed(p))
    } else {
        tag_labels(done)
    });
    if has_toread_tag(next) {
        let k = choose|k: int| 0 <= k < next.len() && trimmed(next[k]) == "toread"@;
        if k < done.len() {
            assert(next[k] == done[k]);
        }
    }
    if has_toread_tag(done) {
        let k = choose|k: int| 0 <= k < done.len() && trimmed(done[k]) == "toread"@;
        assert(next[k] == done[k]);
    }
}

/// Files one tag piece: the to-read marker sets the flag, any other non-blank piece
/// becomes a label.
fn take_tag(piece: &str, marker: &String, labels: &mut Vec<String>, toread: bool) -> (r: bool)
    requires
        distinct_strings(old(labels)@),
        marker@ == "toread"@,
    ensures
        distinct_strings(final(labels)@),
        strings_set(final(labels)@) == if trimmed(piece@).len() > 0 && trimmed(piece@) != "toread"@ {
            strings_set(old(labels)@).insert(trimmed(piece@))
        } else {
            strings_set(old(labels)@)
        },
        r == (toread || trimmed(piece@) == "toread"@),
{
    let t = trim_text(piece);
    if t == *marker {
        true
    } else {
        if t.unicode_len() > 0 {
            add_string(labels, t);
        }
        toread
    }
}

/// Splits `s` at each `sep`, trims the pieces, and sorts them into labels and the
/// to-read marker.
fn read_tags(s: &String, sep: char, labels: &mut Vec<String>) -> (toread: bool)
    requires
        distinct_strings(old(labels)@),
    ensures
        distinct_strings(final(labels)@),
        strings_set(final(labels)@) == strings_set(old(labels)@).union(tag_labels(split_on(s@, sep))),
        toread == has_toread_tag(split_on(s@, sep)),
{
    let marker = String::from_str("toread");
    let n = s.unicode_len();
    let ghost start_set = strings_set(labels@);
    let ghost mut done: Seq<Seq<char>> = Seq::empty();
    let mut toread = false;
    let mut start: usize = 0;
    let mut i: usize = 0;
    proof {
        assert(s@.subrange(0, 0) =~= Seq::<char>::empty());
        assert(done.push(s@.subrange(0, 0)) =~= seq![Seq::<char>::empty()]);
        assert(tag_labels(done) =~= Set::<Seq<char>>::empty());
        assert(start_set =~= start_set.union(Set::<Seq<char>>::empty()));
    }
    while i < n
        invariant
            0 <= start <= i <= n,
            n == s@.len(),
            marker@ == "toread"@,
            distinct_strings(labels@),
            split_on(s@.subrange(0, i as int), sep) == done.push(s@.subrange(start as int, i as int)),
            strings_set(labels@) == start_set.union(tag_labels(done)),
            toread == has_toread_tag(done),
        decreases n - i,
    {
        let pre = Ghost(s@.subrange(0, i + 1));
        assert(pre@.drop_last() =~= s@.subrange(0, i as int));
        assert(pre@.last() == s@[i as int]);
        if s.get_char(i) == sep {
            let piece = s.substring_char(start, i);
            toread = take_tag(piece, &marker, labels, toread);
            proof {
                lemma_tag_push(done, piece@);
                assert(s@.subrange(i + 1, i + 1) =~= Seq::<char>::empty());
                assert(start_set.union(tag_labels(done.push(piece@))) =~= if trimmed(piece@).len() > 0
                    && trimmed(piece@) != "toread"@ {
                    start_set.union(tag_labels(done)).insert(trimmed(piece@))
                } else {
                    start_set.union(tag_labels(done))
                });
                done = done.push(piece@);
            }
            start = i + 1;
        } else {
            proof {
                lemma_split_on_len(s@.subrange(0, i as int), sep);
                assert(s@.subrange(start as int, i + 1) =~= s@.subrange(start as int, i as int).push(
                    s@[i as int],
                ));
                assert(split_on(pre@, sep) =~= done.push(s@.subrange(start as int, i + 1)));
            }
        }
        i += 1;
    }
    let piece = s.substring_char(start, n);
    toread = take_tag(piece, &marker, labels, toread);
    proof {
        lemma_tag_push(done, piece@);
        assert(s@.subrange(0, n as int) =~= s@);
        assert(start_set.union(tag_labels(done.push(piece@))) =~= if trimmed(piece@).len() > 0
            && trimmed(piece@) != "toread"@ {
            start_set.union(tag_labels(done)).insert(trimmed(piece@))
        } else {
            start_set.union(tag_labels(done))
        });
    }
    toread
}

impl Entity {
    /// Finalizes a bookmark from the attributes of its link element, its display names,
    /// the folder labels in force, and its long-form text.
    pub fn from_attrs(
        attrs: &Vec<(String, String)>,
        names: &Vec<Name>,
        labels: &Vec<Label>,
        extended: Option<Extended>,
    ) -> (r: Result<Entity, Error>)
        ensures
            match r {
                Ok(e) => {
                    &&& attrs_ok(attrs@)
                    &&& e.wf()
                    &&& e@ == attrs_view(
                        attrs@,
                        names_set(names@),
                        labels_set(labels@),
                        match extended {
                            Some(x) => Some(x@),
                            None => None,
                        },
                    )
                },
                Err(e) => {
                    &&& !attrs_ok(attrs@)
                    &&& match attr_lookup(attrs@, "href"@) {
                        None => e is MissingUrl,
                        Some(h) => if url_serialization(h) is None {
                            e is MalformedUrl
                        } else {
                            e is MalformedTimestamp
                        },
                    }
                },
            },
    {
        let href = match find_attr(attrs, &String::from_str("href")) {
            Some(h) => h,
            None => {
                return Err(Error::MissingUrl);
            },
        };
        let url = match Url::parse(href.as_str()) {
            Ok(u) => u,
            Err(e) => {
                return Err(e);
            },
        };
        let created_at = match read_time_attr(find_attr(attrs, &String::from_str("add_date"))) {
            Ok(Some(t)) => t,
            Ok(None) => Time(0),
            Err(e) => {
                return Err(e);
            },
        };
        let mut updated_at: Vec<Time> = Vec::new();
        match read_time_attr(find_attr(attrs, &String::from_str("last_modified"))) {
            Ok(Some(t)) => {
                updated_at.push(t);
            },
            Ok(None) => {},
            Err(e) => {
                return Err(e);
            },
        }
        let last_visited_at = match read_time_attr(find_attr(attrs, &String::from_str("last_visit"))) {
            Ok(t) => t,
            Err(e) => {
                return Err(e);
            },
        };
        let mut label_strings = label_texts(labels);
        let mut toread_tag = false;
        match find_attr(attrs, &String::from_str("tags")) {
            Some(v) => {
                let t = trim_text(v.as_str());
                if t.unicode_len() > 0 {
                    toread_tag = read_tags(v, ',', &mut label_strings);
                } else {
                    assert(tag_labels(Seq::<Seq<char>>::empty()) =~= Set::<Seq<char>>::empty());
                    assert(strings_set(label_strings@) =~= strings_set(label_strings@).union(Set::<Seq<char>>::empty()));
                }
            },
            None => {
                assert(tag_labels(Seq::<Seq<char>>::empty()) =~= Set::<Seq<char>>::empty());
                assert(strings_set(label_strings@) =~= strings_set(label_strings@).union(Set::<Seq<char>>::empty()));
            },
        }
        let shared = match find_attr(attrs, &String::from_str("private")) {
            Some(v) => Some(trim_text(v.as_str()) != String::from_str("1")),
            None => Some(true),
        };
        let to_read = if toread_tag {
            Some(true)
        } else {
            match find_attr(attrs, &String::from_str("toread")) {
                Some(v) => Some(trim_text(v.as_str()) == String::from_str("1")),
                None => None,
            }
        };
        let is_feed = match find_attr(attrs, &String::from_str("feed")) {
            Some(v) => Some(trim_text(v.as_str()) == String::from_str("true")),
            None => None,
        };
        let e = Entity {
            url,
            created_at,
            updated_at,
            names: name_texts(names),
            labels: label_strings,
            shared,
            to_read,
            is_feed,
            extended,
            last_visited_at,
        };
        proof {
            use_type_invariant(&e.url);
            assert(times_view(e.updated_at@) =~= match time_attr(attr_lookup(attrs@, "last_modified"@)) {
                Some(t) => seq![t],
                None => Seq::<i64>::empty(),
            });
        }
        Ok(e)
    }
}


fn copy_strings(v: &Vec<String>) -> (r: Vec<String>)
    ensures
        r@ == v@,
{
    let mut r: Vec<String> = Vec::new();
    let mut i: usize = 0;
    while i < v.len()
        invariant
            0 <= i <= v.len(),
            r@ == v@.subrange(0, i as int),
        decreases v.len() - i,
    {
        r.push(v[i].clone());
        assert(r@ =~= v@.subrange(0, i + 1));
        i += 1;
    }
    assert(v@.subrange(0, v.len() as int) =~= v@);
    r
}

fn copy_times(v: &Vec<Time>) -> (r: Vec<Time>)
    ensures
        r@ == v@,
{
    let mut r: Vec<Time> = Vec::new();
    let mut i: usize = 0;
    while i < v.len()
        invariant
            0 <= i <= v.len(),
            r@ == v@.subrange(0, i as int),
        decreases v.len() - i,
    {
        r.push(v[i]);
        assert(r@ =~= v@.subrange(0, i + 1));
        i += 1;
    }
    assert(v@.subrange(0, v.len() as int) =~= v@);
    r
}

fn strings_distinct(v: &Vec<String>) -> (r: bool)
    ensures
        r == distinct_strings(v@),
{
    let mut i: usize = 0;
    while i < v.len()
        invariant
            0 <= i <= v.len(),
            forall|a: int, b: int| 0 <= a < i && 0 <= b < v.len() && a != b ==> v@[a]@ != v@[b]@,
        decreases v.len() - i,
    {
        let mut j: usize = 0;
        while j < v.len()
            invariant
                0 <= i < v.len(),
                0 <= j <= v.len(),
                forall|a: int, b: int| 0 <= a < i && 0 <= b < v.len() && a != b ==> v@[a]@ != v@[b]@,
                forall|b: int| 0 <= b < j && b != i ==> v@[i as int]@ != v@[b]@,
            decreases v.len() - j,
        {
            if j != i && v[i] == v[j] {
                return false;
            }
            j += 1;
        }
        i += 1;
    }
    true
}

fn times_sorted(v: &Vec<Time>) -> (r: bool)
    ensures
        r == sorted(times_view(v@)),
{
    let ghost s = times_view(v@);
    let mut i: usize = 1;
    if v.len() == 0 {
        return true;
    }
    while i < v.len()
        invariant
            1 <= i <= v.len(),
            s == times_view(v@),
            sorted(s.subrange(0, i as int)),
        decreases v.len() - i,
    {
        if v[i].0 < v[i - 1].0 {
            assert(!sorted(s)) by {
                assert(s[i - 1] > s[i as int]);
            }
            return false;
        }
        assert(sorted(s.subrange(0, i + 1))) by {
            let t = s.subrange(0, i + 1);
            assert forall|a: int, b: int| 0 <= a <= b < t.len() implies t[a] <= t[b] by {
                if b == i && a < i {
                    assert(s.subrange(0, i as int)[a] <= s.subrange(0, i as int)[i - 1]);
                }
            }
        }
        i += 1;
    }
    assert(s.subrange(0, v.len() as int) =~= s);
    true
}

impl Entity {
    /// Whether this entity satisfies `wf`: ascending update times, names and labels
    /// without repeats.
    pub fn is_well_formed(&self) -> (r: bool)
        ensures
            r == self.wf(),
    {
        proof {
            use_type_invariant(&self.url);
        }
        times_sorted(&self.updated_at) && strings_distinct(&self.names) && strings_distinct(&self.labels)
    }

    /// A copy of this entity.
    pub fn duplicate(&self) -> (r: Entity)
        ensures
            r@ == self@,
            r.wf() == self.wf(),
    {
        let r = Entity {
            url: self.url.duplicate(),
            created_at: self.created_at,
            updated_at: copy_times(&self.updated_at),
            names: copy_strings(&self.names),
            labels: copy_strings(&self.labels),
            shared: self.shared,
            to_read: self.to_read,
            is_feed: self.is_feed,
            extended: match &self.extended {
                Some(x) => Some(x.duplicate()),
                None => None,
            },
            last_visited_at: self.last_visited_at,
        };
        proof {
            use_type_invariant(&r.url);
            use_type_invariant(&self.url);
        }
        r
    }
}

} // verus!
