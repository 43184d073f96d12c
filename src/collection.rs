use vstd::hash_map::StringHashMap;
use vstd::prelude::*;

use crate::error::Error;

use crate::entity::{
    flag_or, lemma_sorted_insert_position, max_time, merge_view, min_time, relabeled, sorted, Entity,
    EntityView, Url,
};

verus! {

/// The stable identifier of an entity: its position in the store.
#[derive(Debug, Clone, Copy, PartialEq, Eq, Structural, PartialOrd, Ord, Hash)]
pub struct Id(pub usize);

impl Id {
    pub fn new(id: usize) -> (r: Id)
        ensures
            r.0 == id,
    {
        Id(id)
    }

    pub fn index(&self) -> (r: usize)
        ensures
            r == self.0,
    {
        self.0
    }
}

pub type Edges = Vec<Id>;

/// The store as plain values: the entities in id order, and each id's adjacency list.
pub struct CollectionView {
    pub nodes: Seq<EntityView>,
    pub edges: Seq<Seq<usize>>,
}

pub open spec fn ids_view(v: Seq<Id>) -> Seq<usize> {
    v.map_values(|i: Id| i.0)
}

/// The store with no entities.
pub open spec fn empty_view() -> CollectionView {
    CollectionView { nodes: Seq::empty(), edges: Seq::empty() }
}

/// No two entities share a URL.
pub open spec fn unique_urls(nodes: Seq<EntityView>) -> bool {
    forall|i: int, j: int|
        0 <= i < nodes.len() && 0 <= j < nodes.len() && i != j ==> nodes[i].url != nodes[j].url
}

/// The position of the entity with URL `u`, if there is one.
pub open spec fn find_url(nodes: Seq<EntityView>, u: Seq<char>) -> Option<int> {
    if exists|i: int| 0 <= i < nodes.len() && nodes[i].url == u {
        Some(choose|i: int| 0 <= i < nodes.len() && nodes[i].url == u)
    } else {
        None
    }
}

/// Every edge list targets existing ids and names each target once.
pub open spec fn edges_ok(c: CollectionView) -> bool {
    &&& c.edges.len() == c.nodes.len()
    &&& forall|i: int, j: int|
        0 <= i < c.edges.len() && 0 <= j < c.edges[i].len() ==> c.edges[i][j] < c.nodes.len()
    &&& forall|i: int| 0 <= i < c.edges.len() ==> c.edges[i].no_duplicates()
}

/// Every entity has a non-empty URL and ascending update times.
pub open spec fn entities_ok(nodes: Seq<EntityView>) -> bool {
    forall|i: int| 0 <= i < nodes.len() ==> nodes[i].url.len() > 0 && sorted(nodes[i].updated_at)
}

/// The edge list of `from` with `to` appended, unless it is there already.
pub open spec fn with_edge(edges: Seq<Seq<usize>>, from: int, to: usize) -> Seq<Seq<usize>> {
    if edges[from].contains(to) {
        edges
    } else {
        edges.update(from, edges[from].push(to))
    }
}

fn contains_id(v: &Vec<Id>, to: Id) -> (r: bool)
    ensures
        r == ids_view(v@).contains(to.0),
{
    let mut k: usize = 0;
    while k < v.len()
        invariant
            0 <= k <= v.len(),
            forall|j: int| 0 <= j < k ==> v@[j].0 != to.0,
        decreases v.len() - k,
    {
        if v[k].0 == to.0 {
            assert(ids_view(v@)[k as int] == to.0);
            return true;
        }
        k += 1;
    }
    assert forall|j: int| 0 <= j < ids_view(v@).len() implies ids_view(v@)[j] != to.0 by {
        assert(ids_view(v@)[j] == v@[j].0);
    }
    false
}

/// The graph of all entities of one conversion run, with a URL index.
pub struct Collection {
    nodes: Vec<Entity>,
    edges: Vec<Edges>,
    urls: StringHashMap<usize>,
}

impl View for Collection {
    type V = CollectionView;

    closed spec fn view(&self) -> CollectionView {
        CollectionView {
            nodes: self.nodes@.map_values(|e: Entity| e@),
            edges: self.edges@.map_values(|v: Edges| ids_view(v@)),
        }
    }
}

impl Collection {
    /// The store's invariant: node and edge counts agree, the URL index is a bijection
    /// onto the ids, and every entity is well formed.
    pub open spec fn wf(&self) -> bool {
        &&& self.index_ok()
        &&& unique_urls(self@.nodes)
        &&& edges_ok(self@)
        &&& entities_ok(self@.nodes)
    }

    pub closed spec fn index_ok(&self) -> bool {
        &&& self.nodes.len() == self.edges.len()
        &&& forall|i: int| 0 <= i < self.nodes.len() ==> (#[trigger] self.nodes@[i]).wf()
        &&& forall|i: int|
            0 <= i < self.nodes.len() ==> self.urls@.contains_key(#[trigger] self.nodes@[i]@.url)
                && self.urls@[self.nodes@[i]@.url] == i
        &&& forall|k: Seq<char>|
            #[trigger] self.urls@.contains_key(k) ==> self.urls@[k] < self.nodes.len()
                && self.nodes@[self.urls@[k] as int]@.url == k
    }

    proof fn lemma_view(&self)
        ensures
            self@.nodes.len() == self.nodes.len(),
            self@.edges.len() == self.edges.len(),
            forall|i: int| 0 <= i < self.nodes.len() ==> self@.nodes[i] == #[trigger] self.nodes@[i]@,
            forall|i: int| 0 <= i < self.edges.len() ==> self@.edges[i] == ids_view(#[trigger] self.edges@[i]@),
    {
    }

    pub fn new() -> (r: Collection)
        ensures
            r.wf(),
            r@ == empty_view(),
    {
        let r = Collection { nodes: Vec::new(), edges: Vec::new(), urls: StringHashMap::new() };
        proof {
            r.lemma_view();
            assert(r@.nodes =~= Seq::<EntityView>::empty());
            assert(r@.edges =~= Seq::<Seq<usize>>::empty());
        }
        r
    }

    pub fn with_capacity(capacity: usize) -> (r: Collection)
        ensures
            r.wf(),
            r@.nodes.len() == 0,
            r@.edges.len() == 0,
    {
        let r = Collection {
            nodes: Vec::with_capacity(capacity),
            edges: Vec::with_capacity(capacity),
            urls: StringHashMap::with_capacity(capacity),
        };
        proof {
            r.lemma_view();
        }
        r
    }

    pub fn len(&self) -> (r: usize)
        requires
            self.wf(),
        ensures
            r == self@.nodes.len(),
            r == self@.edges.len(),
    {
        proof {
            self.lemma_view();
        }
        self.nodes.len()
    }

    pub fn is_empty(&self) -> (r: bool)
        requires
            self.wf(),
        ensures
            r == (self@.nodes.len() == 0),
    {
        proof {
            self.lemma_view();
        }
        self.nodes.len() == 0
    }

    pub fn contains(&self, url: &Url) -> (r: bool)
        requires
            self.wf(),
        ensures
            r == find_url(self@.nodes, url@).is_some(),
    {
        proof {
            self.lemma_view();
        }
        let r = self.urls.contains_key(url.as_str());
        proof {
            if r {
                let i = self.urls@[url@] as int;
                assert(self@.nodes[i].url == url@);
            } else {
                assert forall|i: int| 0 <= i < self@.nodes.len() implies self@.nodes[i].url != url@ by {
                    assert(self.nodes@[i]@.url == self@.nodes[i].url);
                }
            }
        }
        r
    }

    pub fn id(&self, url: &Url) -> (r: Option<Id>)
        requires
            self.wf(),
        ensures
            match r {
                Some(id) => find_url(self@.nodes, url@) == Some(id.0 as int),
                None => find_url(self@.nodes, url@) is None,
            },
    {
        proof {
            self.lemma_view();
        }
        match self.urls.get(url.as_str()) {
            Some(i) => {
                let ghost k = *i as int;
                assert(self@.nodes[k].url == url@);
                proof {
                    let j = choose|j: int| 0 <= j < self@.nodes.len() && self@.nodes[j].url == url@;
                    assert(j == k);
                }
                Some(Id(*i))
            },
            None => {
                assert forall|i: int| 0 <= i < self@.nodes.len() implies self@.nodes[i].url != url@ by {
                    assert(self.nodes@[i]@.url == self@.nodes[i].url);
                }
                None
            },
        }
    }

    /// Appends an entity whose URL is not in the store yet; its id is the old length.
    pub fn insert(&mut self, entity: Entity) -> (r: Id)
        requires
            old(self).wf(),
            entity.wf(),
            find_url(old(self)@.nodes, entity@.url) is None,
        ensures
            final(self).wf(),
            r.0 == old(self)@.nodes.len(),
            final(self)@.nodes == old(self)@.nodes.push(entity@),
            final(self)@.edges == old(self)@.edges.push(Seq::<usize>::empty()),
    {
        proof {
            self.lemma_view();
        }
        let ghost old_view = self@;
        let id = self.nodes.len();
        let key = String::from_str(entity.url().as_str());
        assert forall|i: int| 0 <= i < old_view.nodes.len() implies old_view.nodes[i].url != entity@.url by {
            if old_view.nodes[i].url == entity@.url {
                assert(exists|j: int| 0 <= j < old_view.nodes.len() && old_view.nodes[j].url == entity@.url);
            }
        }
        self.nodes.push(entity);
        self.edges.push(Vec::new());
        self.urls.insert(key, id);
        proof {
            self.lemma_view();
            assert(ids_view(self.edges@[id as int]@) =~= Seq::<usize>::empty());
            assert(self@.nodes =~= old_view.nodes.push(self.nodes@[id as int]@));
            assert(self@.edges =~= old_view.edges.push(Seq::<usize>::empty()));
            assert forall|k: Seq<char>| #[trigger] self.urls@.contains_key(k) implies self.urls@[k]
                < self.nodes.len() && self.nodes@[self.urls@[k] as int]@.url == k by {
                if k != key@ {
                    assert(old(self).urls@.contains_key(k));
                }
            }
            assert forall|i: int| 0 <= i < self.nodes.len() implies self.urls@.contains_key(
                #[trigger] self.nodes@[i]@.url,
            ) && self.urls@[self.nodes@[i]@.url] == i by {
                if i < id {
                    assert(self.nodes@[i] == old(self).nodes@[i]);
                    assert(old_view.nodes[i].url != key@);
                }
            }
        }
        Id(id)
    }

    /// Inserts a first observation of a URL, or merges a further one into the entity
    /// that already has it; returns that entity's id.
    pub fn upsert(&mut self, other: Entity) -> (r: Id)
        requires
            old(self).wf(),
            other.wf(),
        ensures
            final(self).wf(),
            final(self)@ == upsert_view(old(self)@, other@),
            match find_url(old(self)@.nodes, other@.url) {
                Some(i) => {
                    &&& r.0 == i
                    &&& final(self)@.nodes == old(self)@.nodes.update(
                        i,
                        merge_view(old(self)@.nodes[i], other@),
                    )
                    &&& final(self)@.edges == old(self)@.edges
                },
                None => {
                    &&& r.0 == old(self)@.nodes.len()
                    &&& final(self)@.nodes == old(self)@.nodes.push(other@)
                    &&& final(self)@.edges == old(self)@.edges.push(Seq::<usize>::empty())
                },
            },
    {
        proof {
            self.lemma_view();
        }
        match self.id(other.url()) {
            None => self.insert(other),
            Some(id) => {
                let ghost old_view = self@;
                let i = id.0;
                self.nodes[i].merge(other);
                proof {
                    self.lemma_view();
                    assert(self@.nodes =~= old_view.nodes.update(i as int, self.nodes@[i as int]@));
                    assert(self@.edges =~= old_view.edges);
                    assert forall|k: Seq<char>| #[trigger] self.urls@.contains_key(k) implies self.urls@[k]
                        < self.nodes.len() && self.nodes@[self.urls@[k] as int]@.url == k by {
                        assert(old(self).nodes@[self.urls@[k] as int]@.url == k);
                    }
                    assert forall|a: int| 0 <= a < self.nodes.len() implies self.urls@.contains_key(
                        #[trigger] self.nodes@[a]@.url,
                    ) && self.urls@[self.nodes@[a]@.url] == a by {
                        assert(old(self).nodes@[a]@.url == self.nodes@[a]@.url);
                    }
                }
                id
            },
        }
    }

    /// Appends `to` to the adjacency list of `from`, unless it is there already.
    pub fn add_edge(&mut self, from: Id, to: Id)
        requires
            old(self).wf(),
            from.0 < old(self)@.nodes.len(),
            to.0 < old(self)@.nodes.len(),
        ensures
            final(self).wf(),
            final(self)@.nodes == old(self)@.nodes,
            final(self)@.edges == with_edge(old(self)@.edges, from.0 as int, to.0),
    {
        proof {
            self.lemma_view();
        }
        let ghost old_view = self@;
        let f = from.0;
        if contains_id(&self.edges[f], to) {
            return;
        }
        self.edges[f].push(to);
        proof {
            self.lemma_view();
            assert(self@.nodes =~= old_view.nodes);
            assert(ids_view(self.edges@[f as int]@) =~= old_view.edges[f as int].push(to.0));
            assert(self@.edges =~= old_view.edges.update(f as int, old_view.edges[f as int].push(to.0)));
        }
    }

    /// Adds the edge in both directions.
    pub fn add_edges(&mut self, from: Id, to: Id)
        requires
            old(self).wf(),
            from.0 < old(self)@.nodes.len(),
            to.0 < old(self)@.nodes.len(),
        ensures
            final(self).wf(),
            final(self)@.nodes == old(self)@.nodes,
            final(self)@.edges == with_edge(
                with_edge(old(self)@.edges, from.0 as int, to.0),
                to.0 as int,
                from.0,
            ),
    {
        self.add_edge(from, to);
        self.add_edge(to, from);
    }

    pub fn entity(&self, id: Id) -> (r: &Entity)
        requires
            self.wf(),
            id.0 < self@.nodes.len(),
        ensures
            r@ == self@.nodes[id.0 as int],
            r.wf(),
    {
        proof {
            self.lemma_view();
        }
        &self.nodes[id.0]
    }

    pub fn edges(&self, id: Id) -> (r: &[Id])
        requires
            self.wf(),
            id.0 < self@.nodes.len(),
        ensures
            ids_view(r@) == self@.edges[id.0 as int],
    {
        proof {
            self.lemma_view();
        }
        self.edges[id.0].as_slice()
    }

    pub fn entities(&self) -> (r: &[Entity])
        requires
            self.wf(),
        ensures
            r@.map_values(|e: Entity| e@) == self@.nodes,
    {
        self.nodes.as_slice()
    }

    /// Global label migration: in every entity, each label that is a key of `mapping`
    /// is replaced by the label it maps to.
    pub fn update_labels(&mut self, mapping: &Vec<(String, String)>)
        requires
            old(self).wf(),
        ensures
            final(self).wf(),
            final(self)@.edges == old(self)@.edges,
            final(self)@.nodes.len() == old(self)@.nodes.len(),
            forall|i: int|
                0 <= i < old(self)@.nodes.len() ==> #[trigger] final(self)@.nodes[i] == (EntityView {
                    labels: relabeled(old(self)@.nodes[i].labels, mapping@),
                    ..old(self)@.nodes[i]
                }),
    {
        proof {
            self.lemma_view();
        }
        let ghost old_nodes = self.nodes@;
        let mut i: usize = 0;
        while i < self.nodes.len()
            invariant
                0 <= i <= self.nodes.len(),
                self.nodes.len() == old_nodes.len(),
                self.edges == old(self).edges,
                self.urls == old(self).urls,
                forall|j: int| 0 <= j < self.nodes.len() ==> (#[trigger] self.nodes@[j]).wf(),
                forall|j: int| 0 <= j < self.nodes.len() ==> (#[trigger] self.nodes@[j])@.url == old_nodes[j]@.url,
                forall|j: int| i <= j < self.nodes.len() ==> #[trigger] self.nodes@[j] == old_nodes[j],
                forall|j: int| 0 <= j < i ==> (#[trigger] self.nodes@[j])@ == (EntityView {
                    labels: relabeled(old_nodes[j]@.labels, mapping@),
                    ..old_nodes[j]@
                }),
            decreases self.nodes.len() - i,
        {
            self.nodes[i].relabel(mapping);
            i += 1;
        }
        proof {
            self.lemma_view();
            old(self).lemma_view();
        }
    }
}

/// Two observations of one URL, upserted one after the other, leave exactly one entity
/// with that URL, whose names and labels are the unions of the two observations'.
pub proof fn law_upsert_same_url_keeps_one(c: CollectionView, e1: EntityView, e2: EntityView)
    requires
        unique_urls(c.nodes),
        e1.url == e2.url,
    ensures
        ({
            let c1 = upsert_view(c, e1);
            let c2 = upsert_view(c1, e2);
            let i = find_url(c2.nodes, e1.url)->Some_0;
            &&& unique_urls(c2.nodes)
            &&& find_url(c2.nodes, e1.url) is Some
            &&& forall|j: int| 0 <= j < c2.nodes.len() && c2.nodes[j].url == e1.url ==> j == i
            &&& c2.nodes[i].names == names_before(c, e1.url).union(e1.names).union(e2.names)
            &&& c2.nodes[i].labels == labels_before(c, e1.url).union(e1.labels).union(e2.labels)
        }),
{
    lemma_upsert_view(c, e1);
    let c1 = upsert_view(c, e1);
    lemma_upsert_view(c1, e2);
    let c2 = upsert_view(c1, e2);
    let i1 = find_url(c1.nodes, e1.url)->Some_0;
    let i = find_url(c2.nodes, e1.url)->Some_0;
    assert(c2.nodes[i1].url == e1.url);
    assert(i == i1);
    if find_url(c.nodes, e1.url) is Some {
        assert(c1.nodes[i1].names == c.nodes[i1].names.union(e1.names));
    } else {
        assert(c1.nodes[i1] == e1);
        assert(names_before(c, e1.url) =~= Set::<Seq<char>>::empty());
        assert(labels_before(c, e1.url) =~= Set::<Seq<char>>::empty());
        assert(e1.names =~= Set::<Seq<char>>::empty().union(e1.names));
        assert(e1.labels =~= Set::<Seq<char>>::empty().union(e1.labels));
    }
}

/// The names a store already holds for a URL (none if the URL is new).
pub open spec fn names_before(c: CollectionView, u: Seq<char>) -> Set<Seq<char>> {
    match find_url(c.nodes, u) {
        Some(i) => c.nodes[i].names,
        None => Set::empty(),
    }
}

/// The labels a store already holds for a URL (none if the URL is new).
pub open spec fn labels_before(c: CollectionView, u: Seq<char>) -> Set<Seq<char>> {
    match find_url(c.nodes, u) {
        Some(i) => c.nodes[i].labels,
        None => Set::empty(),
    }
}

/// The store after `upsert`, as `Collection::upsert` states it.
pub open spec fn upsert_view(c: CollectionView, e: EntityView) -> CollectionView {
    match find_url(c.nodes, e.url) {
        Some(i) => CollectionView { nodes: c.nodes.update(i, merge_view(c.nodes[i], e)), edges: c.edges },
        None => CollectionView { nodes: c.nodes.push(e), edges: c.edges.push(Seq::<usize>::empty()) },
    }
}

pub proof fn lemma_upsert_view(c: CollectionView, e: EntityView)
    requires
        unique_urls(c.nodes),
    ensures
        unique_urls(upsert_view(c, e).nodes),
        find_url(upsert_view(c, e).nodes, e.url) is Some,
        upsert_view(c, e).nodes[find_url(upsert_view(c, e).nodes, e.url)->Some_0].url == e.url,
        find_url(c.nodes, e.url) matches Some(i) ==> find_url(upsert_view(c, e).nodes, e.url) == Some(i),
        find_url(c.nodes, e.url) is None ==> find_url(upsert_view(c, e).nodes, e.url) == Some(
            c.nodes.len() as int,
        ),
{
    let d = upsert_view(c, e);
    match find_url(c.nodes, e.url) {
        Some(i) => {
            assert(d.nodes[i].url == e.url);
            let k = choose|k: int| 0 <= k < d.nodes.len() && d.nodes[k].url == e.url;
            assert(k == i);
        },
        None => {
            let n = c.nodes.len() as int;
            assert(d.nodes[n].url == e.url);
            assert forall|a: int, b: int|
                0 <= a < d.nodes.len() && 0 <= b < d.nodes.len() && a != b implies d.nodes[a].url
                != d.nodes[b].url by {
                if a == n {
                    assert(c.nodes[b].url != e.url);
                }
                if b == n {
                    assert(c.nodes[a].url != e.url);
                }
            }
            let k = choose|k: int| 0 <= k < d.nodes.len() && d.nodes[k].url == e.url;
            if k < n {
                assert(c.nodes[k].url == e.url);
            }
        },
    }
}


proof fn lemma_flag_or(a: Option<bool>, b: Option<bool>, c: Option<bool>)
    ensures
        flag_or(a, b) == flag_or(b, a),
        flag_or(flag_or(a, b), c) == flag_or(flag_or(a, c), b),
{
}

/// Upserting two observations of one URL in either order gives the same names, labels
/// and flags.
pub proof fn law_upsert_order_independent(c: CollectionView, e1: EntityView, e2: EntityView)
    requires
        unique_urls(c.nodes),
        e1.url == e2.url,
    ensures
        ({
            let x = upsert_view(upsert_view(c, e1), e2);
            let y = upsert_view(upsert_view(c, e2), e1);
            let i = find_url(x.nodes, e1.url)->Some_0;
            let j = find_url(y.nodes, e1.url)->Some_0;
            &&& x.nodes[i].names == y.nodes[j].names
            &&& x.nodes[i].labels == y.nodes[j].labels
            &&& x.nodes[i].shared == y.nodes[j].shared
            &&& x.nodes[i].to_read == y.nodes[j].to_read
            &&& x.nodes[i].is_feed == y.nodes[j].is_feed
        }),
{
    lemma_upsert_view(c, e1);
    lemma_upsert_view(c, e2);
    lemma_upsert_view(upsert_view(c, e1), e2);
    lemma_upsert_view(upsert_view(c, e2), e1);
    let x = upsert_view(upsert_view(c, e1), e2);
    let y = upsert_view(upsert_view(c, e2), e1);
    let i = find_url(x.nodes, e1.url)->Some_0;
    let j = find_url(y.nodes, e1.url)->Some_0;
    match find_url(c.nodes, e1.url) {
        Some(k) => {
            let b = c.nodes[k];
            lemma_flag_or(b.shared, e1.shared, e2.shared);
            lemma_flag_or(b.to_read, e1.to_read, e2.to_read);
            lemma_flag_or(b.is_feed, e1.is_feed, e2.is_feed);
            assert(x.nodes[i].names =~= y.nodes[j].names);
            assert(x.nodes[i].labels =~= y.nodes[j].labels);
        },
        None => {
            lemma_flag_or(e1.shared, e2.shared, None);
            lemma_flag_or(e1.to_read, e2.to_read, None);
            lemma_flag_or(e1.is_feed, e2.is_feed, None);
            assert(x.nodes[i].names =~= y.nodes[j].names);
            assert(x.nodes[i].labels =~= y.nodes[j].labels);
        },
    }
}

/// Merging an observation into an entity keeps the earlier creation time and inserts the
/// later one into the update times at its sorted position.
pub proof fn law_merge_times(e: EntityView, o: EntityView)
    requires
        sorted(e.updated_at),
    ensures
        merge_view(e, o).created_at == min_time(e.created_at, o.created_at),
        sorted(merge_view(e, o).updated_at),
        exists|k: int|
            0 <= k <= e.updated_at.len() && merge_view(e, o).updated_at == e.updated_at.insert(
                k,
                max_time(e.created_at, o.created_at),
            ),
{
    let k = lemma_sorted_insert_position(e.updated_at, max_time(e.created_at, o.created_at));
    assert(0 <= k <= e.updated_at.len());
}

/// Adding an edge pair twice leaves each endpoint in the other's list exactly once, and
/// changes nothing the first addition did not.
pub proof fn law_add_edges_twice(c: CollectionView, a: usize, b: usize)
    requires
        edges_ok(c),
        a < c.nodes.len(),
        b < c.nodes.len(),
    ensures
        ({
            let once = with_edge(with_edge(c.edges, a as int, b), b as int, a);
            let twice = with_edge(with_edge(once, a as int, b), b as int, a);
            &&& twice == once
            &&& twice[a as int].contains(b)
            &&& twice[b as int].contains(a)
            &&& twice[a as int].no_duplicates()
            &&& twice[b as int].no_duplicates()
        }),
{
    let e0 = c.edges;
    let e1 = with_edge(e0, a as int, b);
    let once = with_edge(e1, b as int, a);
    assert(e1[a as int].contains(b)) by {
        if !e0[a as int].contains(b) {
            assert(e1[a as int][e0[a as int].len() as int] == b);
        }
    }
    assert(once[b as int].contains(a)) by {
        if !e1[b as int].contains(a) {
            assert(once[b as int][e1[b as int].len() as int] == a);
        }
    }
    assert(once[a as int].contains(b)) by {
        if !e1[b as int].contains(a) && a != b {
            assert(once[a as int] == e1[a as int]);
        }
    }
    assert(e1[a as int].no_duplicates());
    assert(e1[b as int].no_duplicates());
    assert(once[a as int].no_duplicates());
    assert(once[b as int].no_duplicates());
}


/// One node of a stored collection: its id, its entity and the ids its edges lead to.
pub struct NodeParts {
    pub id: usize,
    pub entity: Entity,
    pub edges: Vec<usize>,
}

/// The stored versions this library reads: 0.1.x, no pre-release.
pub open spec fn version_compatible(major: u64, minor: u64, pre_release: bool) -> bool {
    major == 0 && minor == 1 && !pre_release
}

/// Some node has id `k`.
pub open spec fn has_id(nodes: Seq<NodeParts>, k: int) -> bool {
    exists|j: int| 0 <= j < nodes.len() && nodes[j].id == k
}

/// The ids of the nodes are exactly `0..n`, each once.
pub open spec fn ids_exact(nodes: Seq<NodeParts>) -> bool {
    &&& forall|k: int| 0 <= k < nodes.len() ==> #[trigger] has_id(nodes, k)
    &&& forall|a: int, b: int| 0 <= a < nodes.len() && 0 <= b < nodes.len() && a != b ==> nodes[a].id != nodes[b].id
}

/// Where the node with id `k` stands.
pub open spec fn position_of_id(nodes: Seq<NodeParts>, k: int) -> int {
    choose|j: int| 0 <= j < nodes.len() && nodes[j].id == k
}

/// The store that stored nodes describe, in id order.
pub open spec fn envelope_view(nodes: Seq<NodeParts>) -> CollectionView {
    CollectionView {
        nodes: Seq::new(nodes.len(), |k: int| nodes[position_of_id(nodes, k)].entity@),
        edges: Seq::new(nodes.len(), |k: int| nodes[position_of_id(nodes, k)].edges@),
    }
}

/// Stored nodes describe a store: exact ids, well-formed entities, distinct URLs, and
/// edge lists of existing ids without repeats.
pub open spec fn envelope_ok(nodes: Seq<NodeParts>) -> bool {
    &&& ids_exact(nodes)
    &&& forall|j: int| 0 <= j < nodes.len() ==> (#[trigger] nodes[j]).entity.wf()
    &&& unique_urls(envelope_view(nodes).nodes)
    &&& edges_ok(envelope_view(nodes))
}

fn find_id(nodes: &Vec<NodeParts>, k: usize) -> (r: Option<usize>)
    ensures
        match r {
            Some(j) => j < nodes.len() && nodes@[j as int].id == k,
            None => forall|j: int| 0 <= j < nodes.len() ==> nodes@[j].id != k,
        },
{
    let mut j: usize = 0;
    while j < nodes.len()
        invariant
            0 <= j <= nodes.len(),
            forall|i: int| 0 <= i < j ==> nodes@[i].id != k,
        decreases nodes.len() - j,
    {
        if nodes[j].id == k {
            return Some(j);
        }
        j += 1;
    }
    None
}

fn ids_distinct(nodes: &Vec<NodeParts>) -> (r: bool)
    ensures
        r == forall|a: int, b: int|
            0 <= a < nodes.len() && 0 <= b < nodes.len() && a != b ==> nodes@[a].id != nodes@[b].id,
{
    let mut a: usize = 0;
    while a < nodes.len()
        invariant
            0 <= a <= nodes.len(),
            forall|x: int, y: int| 0 <= x < a && 0 <= y < nodes.len() && x != y ==> nodes@[x].id != nodes@[y].id,
        decreases nodes.len() - a,
    {
        let mut b: usize = 0;
        while b < nodes.len()
            invariant
                0 <= a < nodes.len(),
                0 <= b <= nodes.len(),
                forall|x: int, y: int| 0 <= x < a && 0 <= y < nodes.len() && x != y ==> nodes@[x].id != nodes@[y].id,
                forall|y: int| 0 <= y < b && y != a ==> nodes@[a as int].id != nodes@[y].id,
            decreases nodes.len() - b,
        {
            if a != b && nodes[a].id == nodes[b].id {
                return false;
            }
            b += 1;
        }
        a += 1;
    }
    true
}

impl Collection {
    /// Rebuilds a store from stored nodes given in any order, as the versioned envelope
    /// persists them; the version must be 0.1.x.
    pub fn from_envelope(major: u64, minor: u64, pre_release: bool, nodes: &Vec<NodeParts>) -> (r: Result<Collection, Error>)
        ensures
            match r {
                Ok(c) => {
                    &&& version_compatible(major, minor, pre_release)
                    &&& envelope_ok(nodes@)
                    &&& c.wf()
                    &&& c@ == envelope_view(nodes@)
                },
                Err(e) => {
                    &&& !(version_compatible(major, minor, pre_release) && envelope_ok(nodes@))
                    &&& !version_compatible(major, minor, pre_release) ==> e is IncompatibleVersion
                    &&& version_compatible(major, minor, pre_release) ==> e is InconsistentNodes
                },
            },
    {
        if !(major == 0 && minor == 1 && !pre_release) {
            return Err(Error::IncompatibleVersion);
        }
        let n = nodes.len();
        if !ids_distinct(nodes) {
            assert(!ids_exact(nodes@));
            assert(!envelope_ok(nodes@));
            return Err(Error::InconsistentNodes);
        }
        let mut order: Vec<usize> = Vec::new();
        let mut k: usize = 0;
        while k < n
            invariant
                version_compatible(major, minor, pre_release),
                0 <= k <= n,
                n == nodes.len(),
                order@.len() == k,
                forall|q: int| 0 <= q < k ==> (#[trigger] order@[q]) < n && nodes@[order@[q] as int].id == q,
            decreases n - k,
        {
            match find_id(nodes, k) {
                Some(j) => {
                    order.push(j);
                },
                None => {
                    assert(!ids_exact(nodes@)) by {
                        assert(!has_id(nodes@, k as int));
                    }
                    return Err(Error::InconsistentNodes);
                },
            }
            k += 1;
        }
        proof {
            assert(ids_exact(nodes@)) by {
                assert forall|q: int| 0 <= q < n implies #[trigger] has_id(nodes@, q) by {
                    assert(nodes@[order@[q] as int].id == q);
                }
            }
            assert forall|q: int| 0 <= q < n implies position_of_id(nodes@, q) == order@[q] as int by {
                let p = position_of_id(nodes@, q);
                assert(nodes@[order@[q] as int].id == q);
                assert(nodes@[p].id == q);
            }
        }
        let mut j: usize = 0;
        while j < n
            invariant
                version_compatible(major, minor, pre_release),
                0 <= j <= n,
                n == nodes.len(),
                forall|i: int| 0 <= i < j ==> (#[trigger] nodes@[i]).entity.wf(),
            decreases n - j,
        {
            if !nodes[j].entity.is_well_formed() {
                return Err(Error::InconsistentNodes);
            }
            j += 1;
        }
        let ghost want = envelope_view(nodes@);
        let mut coll = Collection::with_capacity(n);
        let mut k: usize = 0;
        while k < n
            invariant
                version_compatible(major, minor, pre_release),
                0 <= k <= n,
                n == nodes.len(),
                order@.len() == n,
                forall|q: int| 0 <= q < n ==> position_of_id(nodes@, q) == order@[q] as int,
                forall|q: int| 0 <= q < n ==> (#[trigger] order@[q]) < n,
                forall|i: int| 0 <= i < n ==> (#[trigger] nodes@[i]).entity.wf(),
                want == envelope_view(nodes@),
                coll.wf(),
                coll@.nodes == want.nodes.subrange(0, k as int),
                coll@.edges == Seq::new(k as nat, |q: int| Seq::<usize>::empty()),
            decreases n - k,
        {
            let e = nodes[order[k]].entity.duplicate();
            if coll.contains(e.url()) {
                assert(!unique_urls(want.nodes)) by {
                    let i = find_url(coll@.nodes, e@.url)->Some_0;
                    assert(want.nodes[i] == coll@.nodes[i]);
                    assert(want.nodes[k as int] == e@);
                }
                return Err(Error::InconsistentNodes);
            }
            coll.insert(e);
            assert(coll@.nodes =~= want.nodes.subrange(0, k + 1));
            assert(coll@.edges =~= Seq::new((k + 1) as nat, |q: int| Seq::<usize>::empty()));
            k += 1;
        }
        assert(coll@.nodes =~= want.nodes);
        assert(unique_urls(want.nodes)) by {
            assert(unique_urls(coll@.nodes));
        }
        let mut k: usize = 0;
        while k < n
            invariant
                version_compatible(major, minor, pre_release),
                0 <= k <= n,
                n == nodes.len(),
                order@.len() == n,
                forall|q: int| 0 <= q < n ==> position_of_id(nodes@, q) == order@[q] as int,
                forall|q: int| 0 <= q < n ==> (#[trigger] order@[q]) < n,
                want == envelope_view(nodes@),
                coll.wf(),
                coll@.nodes == want.nodes,
                coll@.edges.len() == n,
                forall|q: int| 0 <= q < k ==> #[trigger] coll@.edges[q] == want.edges[q],
                forall|q: int| k <= q < n ==> #[trigger] coll@.edges[q] == Seq::<usize>::empty(),
                forall|q: int, i: int| 0 <= q < k && 0 <= i < want.edges[q].len() ==> want.edges[q][i] < n,
                forall|q: int| 0 <= q < k ==> want.edges[q].no_duplicates(),
            decreases n - k,
        {
            let list = &nodes[order[k]].edges;
            assert(list@ == want.edges[k as int]);
            let mut i: usize = 0;
            while i < list.len()
                invariant
                    version_compatible(major, minor, pre_release),
                    want == envelope_view(nodes@),
                    want.edges.len() == n,
                    0 <= k < n,
                    0 <= i <= list.len(),
                    n == nodes.len(),
                    list@ == want.edges[k as int],
                    coll.wf(),
                    coll@.nodes == want.nodes,
                    coll@.edges.len() == n,
                    forall|q: int| 0 <= q < k ==> #[trigger] coll@.edges[q] == want.edges[q],
                    forall|q: int| k < q < n ==> #[trigger] coll@.edges[q] == Seq::<usize>::empty(),
                    coll@.edges[k as int] == list@.subrange(0, i as int),
                    forall|a: int| 0 <= a < i ==> list@[a] < n,
                    list@.subrange(0, i as int).no_duplicates(),
                decreases list.len() - i,
            {
                let t = list[i];
                if t >= n {
                    assert(!edges_ok(want));
                    return Err(Error::InconsistentNodes);
                }
                if contains_id(&coll.edges[k], Id(t)) {
                    proof {
                        coll.lemma_view();
                        let a = choose|a: int| 0 <= a < i && list@[a] == t && #[trigger] coll@.edges[k as int][a] == t;
                        assert(!list@.no_duplicates()) by {
                            assert(list@[a] == list@[i as int]);
                        }
                        assert(!edges_ok(want));
                    }
                    return Err(Error::InconsistentNodes);
                }
                proof {
                    coll.lemma_view();
                }
                coll.add_edge(Id(k), Id(t));
                assert(coll@.edges[k as int] =~= list@.subrange(0, i + 1));
                assert(list@.subrange(0, i + 1).no_duplicates()) by {
                    let s = list@.subrange(0, i + 1);
                    assert forall|a: int, b: int| 0 <= a < s.len() && 0 <= b < s.len() && a != b implies s[a] != s[b] by {
                        if a == i || b == i {
                            assert(!list@.subrange(0, i as int).contains(t));
                        } else {
                            assert(s[a] == list@.subrange(0, i as int)[a]);
                            assert(s[b] == list@.subrange(0, i as int)[b]);
                        }
                    }
                }
                i += 1;
            }
            assert(list@.subrange(0, list.len() as int) =~= list@);
            k += 1;
        }
        assert(coll@.edges =~= want.edges);
        Ok(coll)
    }
}

} // verus!
