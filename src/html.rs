//! The Netscape bookmark export: nested description lists of folders and links.

use vstd::prelude::*;

use crate::collection::{empty_view, upsert_view, Collection, CollectionView};
use crate::entity::{attrs_ok, attrs_view, labels_set, names_set, Entity, Extended, Label, Name};
use crate::error::Error;

verus! {

/// What a term (`<dt>`) element holds.
#[derive(Debug)]
pub enum TermContent {
    /// A folder heading, with its trimmed text when that is not blank.
    Folder(Option<String>),
    /// A link: its attributes (names in lower case) and its trimmed text when not blank.
    Link(Vec<(String, String)>, Option<String>),
    /// Neither a heading nor a link.
    Empty,
}

/// The element kinds the folder reader tells apart.
#[derive(Debug)]
pub enum HtmlNodeKind {
    /// `<dt>`.
    Term(TermContent),
    /// `<dd>`, with its trimmed text when that is not blank.
    Detail(Option<String>),
    /// `<dl>`.
    List,
    /// Any other element.
    Other,
}

/// One element of a document, listed in document order. `end` is the position just past
/// the element's last descendant.
#[derive(Debug)]
pub struct HtmlNode {
    pub kind: HtmlNodeKind,
    pub end: usize,
}

/// The reader's state: the folder labels in force, the link awaiting its long-form text,
/// and the ends of the open lists (each closing pops one folder).
pub struct HtmlState {
    pub folders: Seq<Seq<char>>,
    pub pending: Option<int>,
    pub markers: Seq<usize>,
}

pub open spec fn html_initial() -> HtmlState {
    HtmlState { folders: Seq::empty(), pending: None, markers: Seq::empty() }
}

pub open spec fn opt_view(s: Option<String>) -> Option<Seq<char>> {
    match s {
        Some(x) => Some(x@),
        None => None,
    }
}

pub open spec fn opt_set(s: Option<String>) -> Set<Seq<char>> {
    match s {
        Some(x) => set![x@],
        None => Set::empty(),
    }
}

/// Stores the bookmark of the link at `p`, labelled with the folders in force.
pub open spec fn finalize(
    doc: Seq<HtmlNode>,
    c: CollectionView,
    folders: Seq<Seq<char>>,
    p: int,
    ext: Option<Seq<char>>,
) -> Option<CollectionView> {
    if 0 <= p < doc.len() {
        match doc[p].kind {
            HtmlNodeKind::Term(TermContent::Link(attrs, desc)) => if attrs_ok(attrs@) {
                Some(upsert_view(c, attrs_view(attrs@, opt_set(desc), folders.to_set(), ext)))
            } else {
                None
            },
            _ => Some(c),
        }
    } else {
        Some(c)
    }
}

/// Finalizes the pending link, if any, without long-form text.
pub open spec fn flush(doc: Seq<HtmlNode>, s: HtmlState, c: CollectionView) -> Option<(HtmlState, CollectionView)> {
    match s.pending {
        Some(p) => match finalize(doc, c, s.folders, p, None) {
            Some(c1) => Some((HtmlState { pending: None, ..s }, c1)),
            None => None,
        },
        None => Some((s, c)),
    }
}

/// Closes the lists that end at or before position `i` (all of them when `all`): each
/// finalizes the pending link and pops one folder.
pub open spec fn close_lists(doc: Seq<HtmlNode>, s: HtmlState, c: CollectionView, i: int, all: bool) -> Option<(HtmlState, CollectionView)>
    decreases s.markers.len(),
{
    if s.markers.len() > 0 && (all || s.markers.last() <= i) {
        match flush(doc, s, c) {
            Some((s1, c1)) => close_lists(
                doc,
                HtmlState {
                    folders: if s1.folders.len() > 0 { s1.folders.drop_last() } else { s1.folders },
                    markers: s1.markers.drop_last(),
                    ..s1
                },
                c1,
                i,
                all,
            ),
            None => None,
        }
    } else {
        Some((s, c))
    }
}

/// What the element at position `i` does to the state.
pub open spec fn visit(doc: Seq<HtmlNode>, s: HtmlState, c: CollectionView, i: int) -> Option<(HtmlState, CollectionView)> {
    match doc[i].kind {
        HtmlNodeKind::Term(content) => match flush(doc, s, c) {
            Some((s1, c1)) => match content {
                TermContent::Folder(Some(name)) => Some((HtmlState { folders: s1.folders.push(name@), ..s1 }, c1)),
                TermContent::Link(_, _) => Some((HtmlState { pending: Some(i), ..s1 }, c1)),
                _ => Some((s1, c1)),
            },
            None => None,
        },
        HtmlNodeKind::Detail(text) => match s.pending {
            Some(p) => match finalize(doc, c, s.folders, p, opt_view(text)) {
                Some(c1) => Some((HtmlState { pending: None, ..s }, c1)),
                None => None,
            },
            None => Some((s, c)),
        },
        HtmlNodeKind::List => Some((HtmlState { markers: s.markers.push(doc[i].end), ..s }, c)),
        HtmlNodeKind::Other => Some((s, c)),
    }
}

/// The reader run from position `i` to the end of the document.
pub open spec fn html_run(doc: Seq<HtmlNode>, s: HtmlState, c: CollectionView, i: int) -> Option<CollectionView>
    decreases doc.len() - i,
{
    if i >= doc.len() {
        match close_lists(doc, s, c, i, true) {
            Some((s1, c1)) => match flush(doc, s1, c1) {
                Some((_, c2)) => Some(c2),
                None => None,
            },
            None => None,
        }
    } else {
        match close_lists(doc, s, c, i, false) {
            Some((s1, c1)) => match visit(doc, s1, c1, i) {
                Some((s2, c2)) => html_run(doc, s2, c2, i + 1),
                None => None,
            },
            None => None,
        }
    }
}

struct Reader {
    folders: Vec<String>,
    pending: Option<usize>,
    markers: Vec<usize>,
}

impl View for Reader {
    type V = HtmlState;

    closed spec fn view(&self) -> HtmlState {
        HtmlState {
            folders: self.folders@.map_values(|f: String| f@),
            pending: match self.pending {
                Some(p) => Some(p as int),
                None => None,
            },
            markers: self.markers@,
        }
    }
}

fn names_of(desc: &Option<String>) -> (r: Vec<Name>)
    ensures
        names_set(r@) == opt_set(*desc),
{
    let mut r: Vec<Name> = Vec::new();
    match desc {
        Some(d) => {
            r.push(Name::new(d.clone()));
            assert(names_set(r@) =~= set![d@]) by {
                assert(r@[0]@ == d@);
            }
        },
        None => {
            assert(names_set(r@) =~= Set::<Seq<char>>::empty());
        },
    }
    r
}

fn labels_of(folders: &Vec<String>) -> (r: Vec<Label>)
    ensures
        labels_set(r@) == folders@.map_values(|f: String| f@).to_set(),
{
    let mut r: Vec<Label> = Vec::new();
    let mut i: usize = 0;
    while i < folders.len()
        invariant
            0 <= i <= folders.len(),
            r@.len() == i,
            forall|k: int| 0 <= k < i ==> #[trigger] r@[k]@ == folders@[k]@,
        decreases folders.len() - i,
    {
        r.push(Label::new(folders[i].clone()));
        i += 1;
    }
    let ghost views = folders@.map_values(|f: String| f@);
    assert forall|x: Seq<char>| labels_set(r@).contains(x) <==> views.to_set().contains(x) by {
        if labels_set(r@).contains(x) {
            let k = choose|k: int| 0 <= k < r@.len() && r@[k]@ == x;
            assert(views[k] == x);
        }
        if views.to_set().contains(x) {
            let k = choose|k: int| 0 <= k < views.len() && views[k] == x;
            assert(r@[k]@ == x);
        }
    }
    assert(labels_set(r@) =~= views.to_set());
    r
}

impl Reader {
    /// Stores the bookmark of the link at `p`.
    fn finalize(&self, doc: &Vec<HtmlNode>, coll: &mut Collection, p: usize, ext: Option<String>) -> (r: Result<(), Error>)
        requires
            old(coll).wf(),
        ensures
            final(coll).wf(),
            match r {
                Ok(()) => finalize(doc@, old(coll)@, self@.folders, p as int, opt_view(ext)) == Some(final(coll)@),
                Err(_) => finalize(doc@, old(coll)@, self@.folders, p as int, opt_view(ext)) is None,
            },
    {
        if p >= doc.len() {
            return Ok(());
        }
        match &doc[p].kind {
            HtmlNodeKind::Term(TermContent::Link(attrs, desc)) => {
                let names = names_of(desc);
                let labels = labels_of(&self.folders);
                let extended = match ext {
                    Some(x) => Some(Extended::new(x)),
                    None => None,
                };
                match Entity::from_attrs(attrs, &names, &labels, extended) {
                    Ok(e) => {
                        coll.upsert(e);
                        Ok(())
                    },
                    Err(e) => Err(e),
                }
            },
            _ => Ok(()),
        }
    }

    fn flush(&mut self, doc: &Vec<HtmlNode>, coll: &mut Collection) -> (r: Result<(), Error>)
        requires
            old(coll).wf(),
        ensures
            final(coll).wf(),
            match r {
                Ok(()) => flush(doc@, old(self)@, old(coll)@) == Some((final(self)@, final(coll)@)),
                Err(_) => flush(doc@, old(self)@, old(coll)@) is None,
            },
    {
        match self.pending {
            Some(p) => {
                match self.finalize(doc, coll, p, None) {
                    Ok(()) => {},
                    Err(e) => {
                        return Err(e);
                    },
                }
                self.pending = None;
                Ok(())
            },
            None => Ok(()),
        }
    }

    fn close_lists(&mut self, doc: &Vec<HtmlNode>, coll: &mut Collection, i: usize, all: bool) -> (r: Result<(), Error>)
        requires
            old(coll).wf(),
        ensures
            final(coll).wf(),
            match r {
                Ok(()) => close_lists(doc@, old(self)@, old(coll)@, i as int, all) == Some((final(self)@, final(coll)@)),
                Err(_) => close_lists(doc@, old(self)@, old(coll)@, i as int, all) is None,
            },
    {
        while self.markers.len() > 0 && (all || self.markers[self.markers.len() - 1] <= i)
            invariant
                coll.wf(),
                close_lists(doc@, old(self)@, old(coll)@, i as int, all) == close_lists(doc@, self@, coll@, i as int, all),
            decreases self.markers.len(),
        {
            match self.flush(doc, coll) {
                Ok(()) => {},
                Err(e) => {
                    return Err(e);
                },
            }
            let ghost s1 = self@;
            if self.folders.len() > 0 {
                self.folders.pop();
            }
            self.markers.pop();
            assert(self@ == HtmlState {
                folders: if s1.folders.len() > 0 { s1.folders.drop_last() } else { s1.folders },
                markers: s1.markers.drop_last(),
                ..s1
            }) by {
                assert(self@.folders =~= if s1.folders.len() > 0 { s1.folders.drop_last() } else { s1.folders });
                assert(self@.markers =~= s1.markers.drop_last());
            }
        }
        Ok(())
    }

    fn visit(&mut self, doc: &Vec<HtmlNode>, coll: &mut Collection, i: usize) -> (r: Result<(), Error>)
        requires
            old(coll).wf(),
            i < doc.len(),
        ensures
            final(coll).wf(),
            match r {
                Ok(()) => visit(doc@, old(self)@, old(coll)@, i as int) == Some((final(self)@, final(coll)@)),
                Err(_) => visit(doc@, old(self)@, old(coll)@, i as int) is None,
            },
    {
        match &doc[i].kind {
            HtmlNodeKind::Term(content) => {
                match self.flush(doc, coll) {
                    Ok(()) => {},
                    Err(e) => {
                        return Err(e);
                    },
                }
                let ghost s1 = self@;
                match content {
                    TermContent::Folder(Some(name)) => {
                        self.folders.push(name.clone());
                        assert(self@.folders =~= s1.folders.push(name@));
                    },
                    TermContent::Link(_, _) => {
                        self.pending = Some(i);
                    },
                    _ => {},
                }
                Ok(())
            },
            HtmlNodeKind::Detail(text) => {
                match self.pending {
                    Some(p) => {
                        let ext = match text {
                            Some(t) => Some(t.clone()),
                            None => None,
                        };
                        match self.finalize(doc, coll, p, ext) {
                            Ok(()) => {},
                            Err(e) => {
                                return Err(e);
                            },
                        }
                        self.pending = None;
                        Ok(())
                    },
                    None => Ok(()),
                }
            },
            HtmlNodeKind::List => {
                self.markers.push(doc[i].end);
                Ok(())
            },
            HtmlNodeKind::Other => Ok(()),
        }
    }
}

/// Reads a Netscape bookmark document, given as its elements in document order. Each
/// link becomes an upserted entity labelled with the folders it sits in; a detail element
/// right after a link gives its long-form text.
pub fn from_html_nodes(doc: &Vec<HtmlNode>) -> (r: Result<Collection, Error>)
    ensures
        match r {
            Ok(c) => c.wf() && html_run(doc@, html_initial(), empty_view(), 0) == Some(c@),
            Err(_) => html_run(doc@, html_initial(), empty_view(), 0) is None,
        },
{
    let mut coll = Collection::new();
    let mut reader = Reader { folders: Vec::new(), pending: None, markers: Vec::new() };
    proof {
        assert(reader@.folders =~= Seq::<Seq<char>>::empty());
        assert(reader@ == html_initial());
    }
    let mut i: usize = 0;
    while i < doc.len()
        invariant
            0 <= i <= doc.len(),
            coll.wf(),
            html_run(doc@, html_initial(), empty_view(), 0) == html_run(doc@, reader@, coll@, i as int),
        decreases doc.len() - i,
    {
        match reader.close_lists(doc, &mut coll, i, false) {
            Ok(()) => {},
            Err(e) => {
                return Err(e);
            },
        }
        match reader.visit(doc, &mut coll, i) {
            Ok(()) => {},
            Err(e) => {
                return Err(e);
            },
        }
        i += 1;
    }
    match reader.close_lists(doc, &mut coll, i, true) {
        Ok(()) => {},
        Err(e) => {
            return Err(e);
        },
    }
    match reader.flush(doc, &mut coll) {
        Ok(()) => {},
        Err(e) => {
            return Err(e);
        },
    }
    Ok(coll)
}

} // verus!
