//! Kleene's three-valued logic: scalar type and packed bitvector.

use vstd::prelude::*;

use crate::bitplane::{op_pair, pair_or_empty, Planes, WordOp, MAX_WIDTH};

verus! {

/// A single Kleene truth value.
#[derive(Debug, Clone, Copy, PartialEq, Eq, Structural, Hash)]
pub enum Kleene {
    Unknown,
    True,
    False,
}

pub open spec fn kleene_not(a: Kleene) -> Kleene {
    match a {
        Kleene::True => Kleene::False,
        Kleene::False => Kleene::True,
        Kleene::Unknown => Kleene::Unknown,
    }
}

pub open spec fn kleene_and(a: Kleene, b: Kleene) -> Kleene {
    match (a, b) {
        (Kleene::True, _) => b,
        (Kleene::False, _) => Kleene::False,
        (Kleene::Unknown, Kleene::False) => Kleene::False,
        (Kleene::Unknown, _) => Kleene::Unknown,
    }
}

pub open spec fn kleene_or(a: Kleene, b: Kleene) -> Kleene {
    match (a, b) {
        (Kleene::False, _) => b,
        (Kleene::True, _) => Kleene::True,
        (Kleene::Unknown, Kleene::True) => Kleene::True,
        (Kleene::Unknown, _) => Kleene::Unknown,
    }
}

/// The bit pair that stores a value: (positive, negative).
pub open spec fn kleene_bits(a: Kleene) -> (bool, bool) {
    match a {
        Kleene::Unknown => (false, false),
        Kleene::True => (true, false),
        Kleene::False => (false, true),
    }
}

/// The value a consistent bit pair stores.
pub open spec fn kleene_of(p: (bool, bool)) -> Kleene {
    if p.0 {
        Kleene::True
    } else if p.1 {
        Kleene::False
    } else {
        Kleene::Unknown
    }
}

impl Kleene {
    #[must_use]
    pub fn is_known(self) -> (r: bool)
        ensures
            r == (self != Kleene::Unknown),
    {
        !matches!(self, Kleene::Unknown)
    }

    /// The truth of a known value; `Unknown` reads as false.
    #[must_use]
    pub fn to_bool_unchecked(self) -> (r: bool)
        ensures
            r == (self == Kleene::True),
    {
        matches!(self, Kleene::True)
    }

    #[must_use]
    pub fn to_bool(self) -> (r: Option<bool>)
        ensures
            r == match self {
                Kleene::True => Some(true),
                Kleene::False => Some(false),
                Kleene::Unknown => None::<bool>,
            },
    {
        if self.is_known() {
            Some(self.to_bool_unchecked())
        } else {
            None
        }
    }

    #[must_use]
    pub fn negate(self) -> (r: Kleene)
        ensures
            r == kleene_not(self),
    {
        match self {
            Kleene::True => Kleene::False,
            Kleene::False => Kleene::True,
            Kleene::Unknown => Kleene::Unknown,
        }
    }

    #[must_use]
    pub fn and(self, rhs: Kleene) -> (r: Kleene)
        ensures
            r == kleene_and(self, rhs),
    {
        match (self, rhs) {
            (Kleene::True, b) => b,
            (Kleene::False, _) | (Kleene::Unknown, Kleene::False) => Kleene::False,
            (Kleene::Unknown, _) => Kleene::Unknown,
        }
    }

    #[must_use]
    pub fn or(self, rhs: Kleene) -> (r: Kleene)
        ensures
            r == kleene_or(self, rhs),
    {
        match (self, rhs) {
            (Kleene::False, b) => b,
            (Kleene::True, _) | (Kleene::Unknown, Kleene::True) => Kleene::True,
            (Kleene::Unknown, _) => Kleene::Unknown,
        }
    }

    /// Material implication: `!self | rhs`.
    #[must_use]
    pub fn implies(self, rhs: Kleene) -> (r: Kleene)
        ensures
            r == kleene_or(kleene_not(self), rhs),
    {
        self.negate().or(rhs)
    }
}

impl std::ops::Not for Kleene {
    type Output = Kleene;

    fn not(self) -> (r: Kleene)
        ensures
            r == kleene_not(self),
    {
        self.negate()
    }
}

impl vstd::std_specs::ops::NotSpecImpl for Kleene {
    open spec fn obeys_not_spec() -> bool {
        true
    }

    open spec fn not_req(self) -> bool {
        true
    }

    open spec fn not_spec(self) -> Kleene {
        kleene_not(self)
    }
}

impl std::ops::BitAnd for Kleene {
    type Output = Kleene;

    fn bitand(self, rhs: Kleene) -> (r: Kleene)
        ensures
            r == kleene_and(self, rhs),
    {
        self.and(rhs)
    }
}

impl vstd::std_specs::ops::BitAndSpecImpl for Kleene {
    open spec fn obeys_bitand_spec() -> bool {
        true
    }

    open spec fn bitand_req(self, rhs: Kleene) -> bool {
        true
    }

    open spec fn bitand_spec(self, rhs: Kleene) -> Kleene {
        kleene_and(self, rhs)
    }
}

impl std::ops::BitOr for Kleene {
    type Output = Kleene;

    fn bitor(self, rhs: Kleene) -> (r: Kleene)
        ensures
            r == kleene_or(self, rhs),
    {
        self.or(rhs)
    }
}

impl vstd::std_specs::ops::BitOrSpecImpl for Kleene {
    open spec fn obeys_bitor_spec() -> bool {
        true
    }

    open spec fn bitor_req(self, rhs: Kleene) -> bool {
        true
    }

    open spec fn bitor_spec(self, rhs: Kleene) -> Kleene {
        kleene_or(self, rhs)
    }
}

/// An index past the end of a vector.
#[derive(Debug, Clone, Copy, PartialEq, Eq, Structural)]
pub struct OutOfBounds;

/// Number of positions of `s` holding `v`.
pub open spec fn kleene_count(s: Seq<Kleene>, v: Kleene) -> nat
    decreases s.len(),
{
    if s.len() == 0 {
        0
    } else {
        kleene_count(s.drop_last(), v) + if s.last() == v {
            1nat
        } else {
            0nat
        }
    }
}

/// Packed Kleene bitvector: two bitplanes, never both bits set at one position.
#[derive(Debug, Clone, PartialEq, Eq)]
pub struct KleeneVec {
    planes: Planes,
}

impl View for KleeneVec {
    type V = Seq<Kleene>;

    closed spec fn view(&self) -> Seq<Kleene> {
        self.planes.view().map_values(|p: (bool, bool)| kleene_of(p))
    }
}

impl KleeneVec {
    /// Well-formed: the planes are, and no position has both bits.
    pub closed spec fn wf(&self) -> bool {
        &&& self.planes.wf()
        &&& forall|i: int| 0 <= i < self.planes.view().len() ==> !(#[trigger] self.planes.view()[i]).0 || !self.planes.view()[i].1
    }

    pub(crate) closed spec fn planes_view(&self) -> Seq<(bool, bool)> {
        self.planes.view()
    }

    proof fn lemma_bits(&self)
        requires
            self.wf(),
        ensures
            self@.len() == self.planes.view().len(),
            forall|i: int| 0 <= i < self@.len() ==> kleene_bits(#[trigger] self@[i]) == self.planes.view()[i],
    {
        assert forall|i: int| 0 <= i < self@.len() implies kleene_bits(#[trigger] self@[i]) == self.planes.view()[i] by {
            assert(!self.planes.view()[i].0 || !self.planes.view()[i].1);
        }
    }

    pub(crate) proof fn lemma_planes(&self)
        requires
            self.wf(),
        ensures
            self@.len() == self.planes_view().len(),
            forall|i: int| 0 <= i < self@.len() ==> #[trigger] self.planes_view()[i] == kleene_bits(self@[i]),
    {
        self.lemma_bits();
    }

    pub(crate) fn from_planes(planes: Planes) -> (r: KleeneVec)
        requires
            planes.wf(),
            forall|i: int| 0 <= i < planes.view().len() ==> !(#[trigger] planes.view()[i]).0 || !planes.view()[i].1,
        ensures
            r.wf(),
            r@ == planes.view().map_values(|p: (bool, bool)| kleene_of(p)),
            r.planes_view() == planes.view(),
    {
        KleeneVec { planes }
    }

    /// A vector of `width` positions, all `Unknown`.
    #[must_use]
    pub fn new(width: usize) -> (r: KleeneVec)
        requires
            width <= MAX_WIDTH,
        ensures
            r.wf(),
            r@ == Seq::new(width as nat, |i: int| Kleene::Unknown),
    {
        let r = KleeneVec::from_planes(Planes::new(width));
        assert(r@ =~= Seq::new(width as nat, |i: int| Kleene::Unknown));
        r
    }

    #[must_use]
    pub fn all_true(width: usize) -> (r: KleeneVec)
        requires
            width <= MAX_WIDTH,
        ensures
            r.wf(),
            r@ == Seq::new(width as nat, |i: int| Kleene::True),
    {
        let r = KleeneVec::from_planes(Planes::filled(width, true, false));
        assert(r@ =~= Seq::new(width as nat, |i: int| Kleene::True));
        r
    }

    #[must_use]
    pub fn all_false(width: usize) -> (r: KleeneVec)
        requires
            width <= MAX_WIDTH,
        ensures
            r.wf(),
            r@ == Seq::new(width as nat, |i: int| Kleene::False),
    {
        let r = KleeneVec::from_planes(Planes::filled(width, false, true));
        assert(r@ =~= Seq::new(width as nat, |i: int| Kleene::False));
        r
    }

    #[must_use]
    pub fn width(&self) -> (r: usize)
        ensures
            r == self@.len(),
    {
        self.planes.width()
    }

    pub(crate) fn planes(&self) -> (r: &Planes)
        ensures
            r.view() == self.planes_view(),
            self.wf() ==> r.wf(),
    {
        &self.planes
    }

    /// Keeps the first `new_width` positions.
    pub fn truncate(&mut self, new_width: usize)
        requires
            old(self).wf(),
        ensures
            final(self).wf(),
            final(self)@ == if new_width < old(self)@.len() {
                old(self)@.subrange(0, new_width as int)
            } else {
                old(self)@
            },
    {
        self.planes.truncate(new_width);
        assert(self@ =~= if new_width < old(self)@.len() {
            old(self)@.subrange(0, new_width as int)
        } else {
            old(self)@
        });
    }

    /// Grows to `new_width` positions holding `fill`, or cuts down to `new_width`.
    pub fn resize(&mut self, new_width: usize, fill: Kleene)
        requires
            old(self).wf(),
            new_width <= MAX_WIDTH,
        ensures
            final(self).wf(),
            final(self)@ == Seq::new(
                new_width as nat,
                |j: int| if j < old(self)@.len() { old(self)@[j] } else { fill },
            ),
    {
        let (p, n) = match fill {
            Kleene::Unknown => (false, false),
            Kleene::True => (true, false),
            Kleene::False => (false, true),
        };
        self.planes.resize(new_width, p, n);
        assert(self@ =~= Seq::new(
            new_width as nat,
            |j: int| if j < old(self)@.len() { old(self)@[j] } else { fill },
        ));
    }

    fn get_unchecked(&self, i: usize) -> (r: Kleene)
        requires
            self.wf(),
            i < self@.len(),
        ensures
            r == self@[i as int],
    {
        let (p, n) = self.planes.get(i);
        if p {
            Kleene::True
        } else if n {
            Kleene::False
        } else {
            Kleene::Unknown
        }
    }

    pub fn get(&self, i: usize) -> (r: Result<Kleene, OutOfBounds>)
        requires
            self.wf(),
        ensures
            r == if i < self@.len() {
                Ok::<Kleene, OutOfBounds>(self@[i as int])
            } else {
                Err::<Kleene, OutOfBounds>(OutOfBounds)
            },
    {
        if i >= self.planes.width() {
            return Err(OutOfBounds);
        }
        Ok(self.get_unchecked(i))
    }

    /// Writes position `i`, growing the vector with `Unknown` positions first when `i`
    /// is past its end.
    pub fn set(&mut self, i: usize, v: Kleene)
        requires
            old(self).wf(),
            i < MAX_WIDTH,
        ensures
            final(self).wf(),
            final(self)@ == Seq::new(
                if i < old(self)@.len() { old(self)@.len() } else { (i + 1) as nat },
                |j: int| if j == i { v } else if j < old(self)@.len() { old(self)@[j] } else { Kleene::Unknown },
            ),
    {
        let (p, n) = match v {
            Kleene::Unknown => (false, false),
            Kleene::True => (true, false),
            Kleene::False => (false, true),
        };
        self.planes.set(i, p, n);
        assert(self@ =~= Seq::new(
            if i < old(self)@.len() { old(self)@.len() } else { (i + 1) as nat },
            |j: int| if j == i { v } else if j < old(self)@.len() { old(self)@[j] } else { Kleene::Unknown },
        ));
    }

    #[must_use]
    pub fn not(&self) -> (r: KleeneVec)
        requires
            self.wf(),
        ensures
            r.wf(),
            r@ == Seq::new(self@.len(), |j: int| kleene_not(self@[j])),
    {
        let r = KleeneVec::from_planes(self.planes.swapped());
        assert(r@ =~= Seq::new(self@.len(), |j: int| kleene_not(self@[j])));
        r
    }

    fn combine(&self, other: &KleeneVec, op: WordOp) -> (r: KleeneVec)
        requires
            self.wf(),
            other.wf(),
            self@.len() == other@.len(),
            op != WordOp::Merge,
        ensures
            r.wf(),
            r@.len() == self@.len(),
            forall|j: int| 0 <= j < self@.len() ==> kleene_bits(#[trigger] r@[j]) == op_pair(op, kleene_bits(self@[j]), kleene_bits(other@[j])),
    {
        proof {
            self.lemma_bits();
            other.lemma_bits();
        }
        let planes = self.planes.combine(&other.planes, op);
        proof {
            assert forall|i: int| 0 <= i < planes.view().len() implies !(#[trigger] planes.view()[i]).0 || !planes.view()[i].1 by {
                assert(pair_or_empty(self.planes.view(), i) == kleene_bits(self@[i]));
                assert(pair_or_empty(other.planes.view(), i) == kleene_bits(other@[i]));
            }
        }
        let r = KleeneVec::from_planes(planes);
        proof {
            r.lemma_bits();
            assert forall|j: int| 0 <= j < self@.len() implies kleene_bits(#[trigger] r@[j]) == op_pair(op, kleene_bits(self@[j]), kleene_bits(other@[j])) by {
                assert(pair_or_empty(self.planes.view(), j) == kleene_bits(self@[j]));
                assert(pair_or_empty(other.planes.view(), j) == kleene_bits(other@[j]));
            }
        }
        r
    }

    /// Position-wise conjunction of two vectors of one width.
    #[must_use]
    pub fn and(&self, other: &KleeneVec) -> (r: KleeneVec)
        requires
            self.wf(),
            other.wf(),
            self@.len() == other@.len(),
        ensures
            r.wf(),
            r@ == Seq::new(self@.len(), |j: int| kleene_and(self@[j], other@[j])),
    {
        let r = self.combine(other, WordOp::And);
        assert forall|j: int| 0 <= j < self@.len() implies r@[j] == kleene_and(self@[j], other@[j]) by {
            assert(kleene_bits(r@[j]) == op_pair(WordOp::And, kleene_bits(self@[j]), kleene_bits(other@[j])));
        }
        assert(r@ =~= Seq::new(self@.len(), |j: int| kleene_and(self@[j], other@[j])));
        r
    }

    /// Position-wise disjunction of two vectors of one width.
    #[must_use]
    pub fn or(&self, other: &KleeneVec) -> (r: KleeneVec)
        requires
            self.wf(),
            other.wf(),
            self@.len() == other@.len(),
        ensures
            r.wf(),
            r@ == Seq::new(self@.len(), |j: int| kleene_or(self@[j], other@[j])),
    {
        let r = self.combine(other, WordOp::Or);
        assert forall|j: int| 0 <= j < self@.len() implies r@[j] == kleene_or(self@[j], other@[j]) by {
            assert(kleene_bits(r@[j]) == op_pair(WordOp::Or, kleene_bits(self@[j]), kleene_bits(other@[j])));
        }
        assert(r@ =~= Seq::new(self@.len(), |j: int| kleene_or(self@[j], other@[j])));
        r
    }

    /// Position-wise implication: `!self | other`.
    #[must_use]
    pub fn implies(&self, other: &KleeneVec) -> (r: KleeneVec)
        requires
            self.wf(),
            other.wf(),
            self@.len() == other@.len(),
        ensures
            r.wf(),
            r@ == Seq::new(self@.len(), |j: int| kleene_or(kleene_not(self@[j]), other@[j])),
    {
        let r = self.not().or(other);
        assert(r@ =~= Seq::new(self@.len(), |j: int| kleene_or(kleene_not(self@[j]), other@[j])));
        r
    }

    fn all_equal(&self, v: Kleene) -> (r: bool)
        requires
            self.wf(),
        ensures
            r == forall|j: int| 0 <= j < self@.len() ==> self@[j] == v,
    {
        let n = self.planes.width();
        let mut i: usize = 0;
        while i < n
            invariant
                0 <= i <= n,
                n == self@.len(),
                self.wf(),
                forall|j: int| 0 <= j < i ==> self@[j] == v,
            decreases n - i,
        {
            if self.get_unchecked(i) != v {
                return false;
            }
            i += 1;
        }
        true
    }

    #[must_use]
    pub fn is_all_known(&self) -> (r: bool)
        requires
            self.wf(),
        ensures
            r == forall|j: int| 0 <= j < self@.len() ==> self@[j] != Kleene::Unknown,
    {
        let n = self.planes.width();
        let mut i: usize = 0;
        while i < n
            invariant
                0 <= i <= n,
                n == self@.len(),
                self.wf(),
                forall|j: int| 0 <= j < i ==> self@[j] != Kleene::Unknown,
            decreases n - i,
        {
            if self.get_unchecked(i) == Kleene::Unknown {
                return false;
            }
            i += 1;
        }
        true
    }

    #[must_use]
    pub fn is_all_true(&self) -> (r: bool)
        requires
            self.wf(),
        ensures
            r == forall|j: int| 0 <= j < self@.len() ==> self@[j] == Kleene::True,
    {
        self.all_equal(Kleene::True)
    }

    #[must_use]
    pub fn is_all_false(&self) -> (r: bool)
        requires
            self.wf(),
        ensures
            r == forall|j: int| 0 <= j < self@.len() ==> self@[j] == Kleene::False,
    {
        self.all_equal(Kleene::False)
    }

    fn count(&self, v: Kleene) -> (r: usize)
        requires
            self.wf(),
        ensures
            r == kleene_count(self@, v),
    {
        let n = self.planes.width();
        let mut c: usize = 0;
        let mut i: usize = 0;
        while i < n
            invariant
                0 <= c <= i <= n,
                n == self@.len(),
                self.wf(),
                c == kleene_count(self@.subrange(0, i as int), v),
            decreases n - i,
        {
            let ghost pre = self@.subrange(0, i + 1);
            assert(pre.drop_last() =~= self@.subrange(0, i as int));
            if self.get_unchecked(i) == v {
                c += 1;
            }
            i += 1;
        }
        assert(self@.subrange(0, n as int) =~= self@);
        c
    }

    #[must_use]
    pub fn count_true(&self) -> (r: usize)
        requires
            self.wf(),
        ensures
            r == kleene_count(self@, Kleene::True),
    {
        self.count(Kleene::True)
    }

    #[must_use]
    pub fn count_false(&self) -> (r: usize)
        requires
            self.wf(),
        ensures
            r == kleene_count(self@, Kleene::False),
    {
        self.count(Kleene::False)
    }

    #[must_use]
    pub fn count_unknown(&self) -> (r: usize)
        requires
            self.wf(),
        ensures
            r == kleene_count(self@, Kleene::Unknown),
    {
        self.count(Kleene::Unknown)
    }
}

} // verus!
