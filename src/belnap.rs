//! Belnap's four-valued logic: scalar type and packed bitvector.

use vstd::prelude::*;

use crate::bitplane::{op_pair, pair_or_empty, Planes, WordOp, MAX_WIDTH};
use crate::kleene::{kleene_bits, kleene_of, Kleene, KleeneVec, OutOfBounds};

verus! {

/// A single Belnap truth value.
#[derive(Debug, Clone, Copy, PartialEq, Eq, Structural, Hash)]
pub enum Belnap {
    Unknown,
    True,
    False,
    Both,
}

/// The bit pair that stores a value: (positive, negative).
pub open spec fn belnap_bits(a: Belnap) -> (bool, bool) {
    match a {
        Belnap::Unknown => (false, false),
        Belnap::True => (true, false),
        Belnap::False => (false, true),
        Belnap::Both => (true, true),
    }
}

/// The value a bit pair stores.
pub open spec fn belnap_of(p: (bool, bool)) -> Belnap {
    match p {
        (false, false) => Belnap::Unknown,
        (true, false) => Belnap::True,
        (false, true) => Belnap::False,
        (true, true) => Belnap::Both,
    }
}

pub open spec fn belnap_not(a: Belnap) -> Belnap {
    belnap_of((belnap_bits(a).1, belnap_bits(a).0))
}

pub open spec fn belnap_op(op: WordOp, a: Belnap, b: Belnap) -> Belnap {
    belnap_of(op_pair(op, belnap_bits(a), belnap_bits(b)))
}

fn of_bits(p: bool, n: bool) -> (r: Belnap)
    ensures
        r == belnap_of((p, n)),
{
    match (p, n) {
        (false, false) => Belnap::Unknown,
        (true, false) => Belnap::True,
        (false, true) => Belnap::False,
        (true, true) => Belnap::Both,
    }
}

fn bits_of(a: Belnap) -> (r: (bool, bool))
    ensures
        r == belnap_bits(a),
{
    match a {
        Belnap::Unknown => (false, false),
        Belnap::True => (true, false),
        Belnap::False => (false, true),
        Belnap::Both => (true, true),
    }
}

impl Belnap {
    /// Whether the value carries any information (is not `Unknown`).
    #[must_use]
    pub fn has_info(self) -> (r: bool)
        ensures
            r == (self != Belnap::Unknown),
    {
        !matches!(self, Belnap::Unknown)
    }

    /// Whether the value is exactly `True` or `False`.
    #[must_use]
    pub fn is_determined(self) -> (r: bool)
        ensures
            r == (self == Belnap::True || self == Belnap::False),
    {
        let (p, n) = bits_of(self);
        p != n
    }

    /// Whether the value is `Both` (contradicted).
    #[must_use]
    pub fn is_contradicted(self) -> (r: bool)
        ensures
            r == (self == Belnap::Both),
    {
        matches!(self, Belnap::Both)
    }

    #[must_use]
    pub fn to_bool(self) -> (r: Option<bool>)
        ensures
            r == match self {
                Belnap::True => Some(true),
                Belnap::False => Some(false),
                _ => None::<bool>,
            },
    {
        match self {
            Belnap::True => Some(true),
            Belnap::False => Some(false),
            _ => None,
        }
    }

    #[must_use]
    pub fn negate(self) -> (r: Belnap)
        ensures
            r == belnap_not(self),
    {
        let (p, n) = bits_of(self);
        of_bits(n, p)
    }

    fn apply(self, op: WordOp, rhs: Belnap) -> (r: Belnap)
        ensures
            r == belnap_op(op, self, rhs),
    {
        let (ap, an) = bits_of(self);
        let (bp, bn) = bits_of(rhs);
        match op {
            WordOp::And => of_bits(ap && bp, an || bn),
            WordOp::Or => of_bits(ap || bp, an && bn),
            WordOp::Merge => of_bits(ap || bp, an || bn),
        }
    }

    /// Knowledge-ordering join: combines observations from independent sources.
    #[must_use]
    pub fn merge(self, other: Belnap) -> (r: Belnap)
        ensures
            r == belnap_op(WordOp::Merge, self, other),
    {
        self.apply(WordOp::Merge, other)
    }

    #[must_use]
    pub fn and(self, rhs: Belnap) -> (r: Belnap)
        ensures
            r == belnap_op(WordOp::And, self, rhs),
    {
        self.apply(WordOp::And, rhs)
    }

    #[must_use]
    pub fn or(self, rhs: Belnap) -> (r: Belnap)
        ensures
            r == belnap_op(WordOp::Or, self, rhs),
    {
        self.apply(WordOp::Or, rhs)
    }

    /// Material implication: `!self | rhs`.
    #[must_use]
    pub fn implies(self, rhs: Belnap) -> (r: Belnap)
        ensures
            r == belnap_op(WordOp::Or, belnap_not(self), rhs),
    {
        self.negate().or(rhs)
    }
}

impl std::ops::Not for Belnap {
    type Output = Belnap;

    fn not(self) -> (r: Belnap)
        ensures
            r == belnap_not(self),
    {
        self.negate()
    }
}

impl vstd::std_specs::ops::NotSpecImpl for Belnap {
    open spec fn obeys_not_spec() -> bool {
        true
    }

    open spec fn not_req(self) -> bool {
        true
    }

    open spec fn not_spec(self) -> Belnap {
        belnap_not(self)
    }
}

impl std::ops::BitAnd for Belnap {
    type Output = Belnap;

    fn bitand(self, rhs: Belnap) -> (r: Belnap)
        ensures
            r == belnap_op(WordOp::And, self, rhs),
    {
        self.and(rhs)
    }
}

impl vstd::std_specs::ops::BitAndSpecImpl for Belnap {
    open spec fn obeys_bitand_spec() -> bool {
        true
    }

    open spec fn bitand_req(self, rhs: Belnap) -> bool {
        true
    }

    open spec fn bitand_spec(self, rhs: Belnap) -> Belnap {
        belnap_op(WordOp::And, self, rhs)
    }
}

impl std::ops::BitOr for Belnap {
    type Output = Belnap;

    fn bitor(self, rhs: Belnap) -> (r: Belnap)
        ensures
            r == belnap_op(WordOp::Or, self, rhs),
    {
        self.or(rhs)
    }
}

impl vstd::std_specs::ops::BitOrSpecImpl for Belnap {
    open spec fn obeys_bitor_spec() -> bool {
        true
    }

    open spec fn bitor_req(self, rhs: Belnap) -> bool {
        true
    }

    open spec fn bitor_spec(self, rhs: Belnap) -> Belnap {
        belnap_op(WordOp::Or, self, rhs)
    }
}

pub open spec fn belnap_from_kleene(k: Kleene) -> Belnap {
    belnap_of(kleene_bits(k))
}

impl From<Kleene> for Belnap {
    fn from(k: Kleene) -> (r: Belnap)
        ensures
            r == belnap_from_kleene(k),
    {
        match k {
            Kleene::Unknown => Belnap::Unknown,
            Kleene::True => Belnap::True,
            Kleene::False => Belnap::False,
        }
    }
}

impl vstd::std_specs::convert::FromSpecImpl<Kleene> for Belnap {
    open spec fn obeys_from_spec() -> bool {
        true
    }

    open spec fn from_spec(k: Kleene) -> Belnap {
        belnap_from_kleene(k)
    }
}

pub open spec fn kleene_from_belnap(b: Belnap) -> Result<Kleene, ()> {
    match b {
        Belnap::Unknown => Ok(Kleene::Unknown),
        Belnap::True => Ok(Kleene::True),
        Belnap::False => Ok(Kleene::False),
        Belnap::Both => Err(()),
    }
}

impl TryFrom<Belnap> for Kleene {
    type Error = ();

    fn try_from(b: Belnap) -> (r: Result<Kleene, ()>)
        ensures
            r == kleene_from_belnap(b),
    {
        match b {
            Belnap::Unknown => Ok(Kleene::Unknown),
            Belnap::True => Ok(Kleene::True),
            Belnap::False => Ok(Kleene::False),
            Belnap::Both => Err(()),
        }
    }
}

impl vstd::std_specs::convert::TryFromSpecImpl<Belnap> for Kleene {
    open spec fn obeys_try_from_spec() -> bool {
        true
    }

    open spec fn try_from_spec(b: Belnap) -> Result<Kleene, ()> {
        kleene_from_belnap(b)
    }
}

/// Number of positions of `s` holding `v`.
pub open spec fn belnap_count(s: Seq<Belnap>, v: Belnap) -> nat
    decreases s.len(),
{
    if s.len() == 0 {
        0
    } else {
        belnap_count(s.drop_last(), v) + if s.last() == v {
            1nat
        } else {
            0nat
        }
    }
}

/// The value at position `j`, or `Unknown` past the end.
pub open spec fn belnap_or_unknown(s: Seq<Belnap>, j: int) -> Belnap {
    if 0 <= j < s.len() {
        s[j]
    } else {
        Belnap::Unknown
    }
}

/// Packed Belnap bitvector: two bitplanes, all four bit patterns valid.
#[derive(Debug, Clone, PartialEq, Eq)]
pub struct BelnapVec {
    planes: Planes,
}

impl View for BelnapVec {
    type V = Seq<Belnap>;

    closed spec fn view(&self) -> Seq<Belnap> {
        self.planes.view().map_values(|p: (bool, bool)| belnap_of(p))
    }
}

impl BelnapVec {
    /// Some vector; what a conversion promises is stated on the conversion itself.
    pub closed spec fn new_spec() -> BelnapVec {
        BelnapVec { planes: arbitrary() }
    }

    pub closed spec fn wf(&self) -> bool {
        self.planes.wf()
    }

    proof fn lemma_bits(&self)
        ensures
            self@.len() == self.planes.view().len(),
            forall|j: int| #[trigger] pair_or_empty(self.planes.view(), j) == belnap_bits(belnap_or_unknown(self@, j)),
    {
        assert forall|j: int| #[trigger] pair_or_empty(self.planes.view(), j) == belnap_bits(belnap_or_unknown(self@, j)) by {
            if 0 <= j < self@.len() {
                let p = self.planes.view()[j];
                assert(belnap_bits(belnap_of(p)) == p);
            }
        }
    }

    fn from_planes(planes: Planes) -> (r: BelnapVec)
        requires
            planes.wf(),
        ensures
            r.wf(),
            r@ == planes.view().map_values(|p: (bool, bool)| belnap_of(p)),
    {
        BelnapVec { planes }
    }

    /// A vector of `width` positions, all `Unknown`.
    #[must_use]
    pub fn new(width: usize) -> (r: BelnapVec)
        requires
            width <= MAX_WIDTH,
        ensures
            r.wf(),
            r@ == Seq::new(width as nat, |i: int| Belnap::Unknown),
    {
        let r = BelnapVec::from_planes(Planes::new(width));
        assert(r@ =~= Seq::new(width as nat, |i: int| Belnap::Unknown));
        r
    }

    #[must_use]
    pub fn all_true(width: usize) -> (r: BelnapVec)
        requires
            width <= MAX_WIDTH,
        ensures
            r.wf(),
            r@ == Seq::new(width as nat, |i: int| Belnap::True),
    {
        let r = BelnapVec::from_planes(Planes::filled(width, true, false));
        assert(r@ =~= Seq::new(width as nat, |i: int| Belnap::True));
        r
    }

    #[must_use]
    pub fn all_false(width: usize) -> (r: BelnapVec)
        requires
            width <= MAX_WIDTH,
        ensures
            r.wf(),
            r@ == Seq::new(width as nat, |i: int| Belnap::False),
    {
        let r = BelnapVec::from_planes(Planes::filled(width, false, true));
        assert(r@ =~= Seq::new(width as nat, |i: int| Belnap::False));
        r
    }

    #[must_use]
    pub fn width(&self) -> (r: usize)
        ensures
            r == self@.len(),
    {
        self.planes.width()
    }

    /// Keeps the first `new_width` positions.
    pub fn truncate(&mut self, new_width: usize)
        requires
            old(self).wf(),
        ensures
            final(self).wf(),
            final(self)@ == if new_width < old(self)@.len() {
                old(self)@.subrange(0, new_width as int)
            } else {
                old(self)@
            },
    {
        self.planes.truncate(new_width);
        assert(self@ =~= if new_width < old(self)@.len() {
            old(self)@.subrange(0, new_width as int)
        } else {
            old(self)@
        });
    }

    /// Grows to `new_width` positions holding `fill`, or cuts down to `new_width`.
    pub fn resize(&mut self, new_width: usize, fill: Belnap)
        requires
            old(self).wf(),
            new_width <= MAX_WIDTH,
        ensures
            final(self).wf(),
            final(self)@ == Seq::new(
                new_width as nat,
                |j: int| if j < old(self)@.len() { old(self)@[j] } else { fill },
            ),
    {
        let (p, n) = bits_of(fill);
        self.planes.resize(new_width, p, n);
        assert(self@ =~= Seq::new(
            new_width as nat,
            |j: int| if j < old(self)@.len() { old(self)@[j] } else { fill },
        ));
    }

    fn get_unchecked(&self, i: usize) -> (r: Belnap)
        requires
            self.wf(),
            i < self@.len(),
        ensures
            r == self@[i as int],
    {
        let (p, n) = self.planes.get(i);
        of_bits(p, n)
    }

    pub fn get(&self, i: usize) -> (r: Result<Belnap, OutOfBounds>)
        requires
            self.wf(),
        ensures
            r == if i < self@.len() {
                Ok::<Belnap, OutOfBounds>(self@[i as int])
            } else {
                Err::<Belnap, OutOfBounds>(OutOfBounds)
            },
    {
        if i >= self.planes.width() {
            return Err(OutOfBounds);
        }
        Ok(self.get_unchecked(i))
    }

    /// Writes position `i`, growing the vector with `Unknown` positions first when `i`
    /// is past its end.
    pub fn set(&mut self, i: usize, v: Belnap)
        requires
            old(self).wf(),
            i < MAX_WIDTH,
        ensures
            final(self).wf(),
            final(self)@ == Seq::new(
                if i < old(self)@.len() { old(self)@.len() } else { (i + 1) as nat },
                |j: int| if j == i { v } else if j < old(self)@.len() { old(self)@[j] } else { Belnap::Unknown },
            ),
    {
        let (p, n) = bits_of(v);
        self.planes.set(i, p, n);
        assert(self@ =~= Seq::new(
            if i < old(self)@.len() { old(self)@.len() } else { (i + 1) as nat },
            |j: int| if j == i { v } else if j < old(self)@.len() { old(self)@[j] } else { Belnap::Unknown },
        ));
    }

    #[must_use]
    pub fn not(&self) -> (r: BelnapVec)
        requires
            self.wf(),
        ensures
            r.wf(),
            r@ == Seq::new(self@.len(), |j: int| belnap_not(self@[j])),
    {
        let r = BelnapVec::from_planes(self.planes.swapped());
        assert(r@ =~= Seq::new(self@.len(), |j: int| belnap_not(self@[j])));
        r
    }

    fn combine(&self, other: &BelnapVec, op: WordOp) -> (r: BelnapVec)
        requires
            self.wf(),
            other.wf(),
        ensures
            r.wf(),
            r@ == Seq::new(
                if self@.len() < other@.len() { other@.len() } else { self@.len() },
                |j: int| belnap_op(op, belnap_or_unknown(self@, j), belnap_or_unknown(other@, j)),
            ),
    {
        proof {
            self.lemma_bits();
            other.lemma_bits();
        }
        let r = BelnapVec::from_planes(self.planes.combine(&other.planes, op));
        assert(r@ =~= Seq::new(
            if self@.len() < other@.len() { other@.len() } else { self@.len() },
            |j: int| belnap_op(op, belnap_or_unknown(self@, j), belnap_or_unknown(other@, j)),
        ));
        r
    }

    /// Position-wise conjunction; the shorter vector reads as `Unknown` past its end.
    #[must_use]
    pub fn and(&self, other: &BelnapVec) -> (r: BelnapVec)
        requires
            self.wf(),
            other.wf(),
        ensures
            r.wf(),
            r@ == Seq::new(
                if self@.len() < other@.len() { other@.len() } else { self@.len() },
                |j: int| belnap_op(WordOp::And, belnap_or_unknown(self@, j), belnap_or_unknown(other@, j)),
            ),
    {
        self.combine(other, WordOp::And)
    }

    /// Position-wise disjunction; the shorter vector reads as `Unknown` past its end.
    #[must_use]
    pub fn or(&self, other: &BelnapVec) -> (r: BelnapVec)
        requires
            self.wf(),
            other.wf(),
        ensures
            r.wf(),
            r@ == Seq::new(
                if self@.len() < other@.len() { other@.len() } else { self@.len() },
                |j: int| belnap_op(WordOp::Or, belnap_or_unknown(self@, j), belnap_or_unknown(other@, j)),
            ),
    {
        self.combine(other, WordOp::Or)
    }

    /// Position-wise implication: `!self | other`.
    #[must_use]
    pub fn implies(&self, other: &BelnapVec) -> (r: BelnapVec)
        requires
            self.wf(),
            other.wf(),
        ensures
            r.wf(),
            r@ == Seq::new(
                if self@.len() < other@.len() { other@.len() } else { self@.len() },
                |j: int| belnap_op(
                    WordOp::Or,
                    if j < self@.len() { belnap_not(self@[j]) } else { Belnap::Unknown },
                    belnap_or_unknown(other@, j),
                ),
            ),
    {
        let n = self.not();
        let r = n.or(other);
        assert(r@ =~= Seq::new(
            if self@.len() < other@.len() { other@.len() } else { self@.len() },
            |j: int| belnap_op(
                WordOp::Or,
                if j < self@.len() { belnap_not(self@[j]) } else { Belnap::Unknown },
                belnap_or_unknown(other@, j),
            ),
        ));
        r
    }

    /// Knowledge-ordering join, position by position.
    #[must_use]
    pub fn merge(&self, other: &BelnapVec) -> (r: BelnapVec)
        requires
            self.wf(),
            other.wf(),
        ensures
            r.wf(),
            r@ == Seq::new(
                if self@.len() < other@.len() { other@.len() } else { self@.len() },
                |j: int| belnap_op(WordOp::Merge, belnap_or_unknown(self@, j), belnap_or_unknown(other@, j)),
            ),
    {
        self.combine(other, WordOp::Merge)
    }

    fn all_in(&self, a: Belnap, b: Belnap) -> (r: bool)
        requires
            self.wf(),
        ensures
            r == forall|j: int| 0 <= j < self@.len() ==> self@[j] == a || self@[j] == b,
    {
        let n = self.planes.width();
        let mut i: usize = 0;
        while i < n
            invariant
                0 <= i <= n,
                n == self@.len(),
                self.wf(),
                forall|j: int| 0 <= j < i ==> self@[j] == a || self@[j] == b,
            decreases n - i,
        {
            let v = self.get_unchecked(i);
            if v != a && v != b {
                return false;
            }
            i += 1;
        }
        true
    }

    /// Whether no position is `Both`, so that the vector reads as a Kleene vector.
    #[must_use]
    pub fn is_consistent(&self) -> (r: bool)
        requires
            self.wf(),
        ensures
            r == forall|j: int| 0 <= j < self@.len() ==> self@[j] != Belnap::Both,
    {
        let n = self.planes.width();
        let mut i: usize = 0;
        while i < n
            invariant
                0 <= i <= n,
                n == self@.len(),
                self.wf(),
                forall|j: int| 0 <= j < i ==> self@[j] != Belnap::Both,
            decreases n - i,
        {
            if self.get_unchecked(i) == Belnap::Both {
                return false;
            }
            i += 1;
        }
        true
    }

    /// Whether every position is `True` or `False`.
    #[must_use]
    pub fn is_all_determined(&self) -> (r: bool)
        requires
            self.wf(),
        ensures
            r == forall|j: int| 0 <= j < self@.len() ==> self@[j] == Belnap::True || self@[j] == Belnap::False,
    {
        self.all_in(Belnap::True, Belnap::False)
    }

    #[must_use]
    pub fn is_all_true(&self) -> (r: bool)
        requires
            self.wf(),
        ensures
            r == forall|j: int| 0 <= j < self@.len() ==> self@[j] == Belnap::True,
    {
        self.all_in(Belnap::True, Belnap::True)
    }

    #[must_use]
    pub fn is_all_false(&self) -> (r: bool)
        requires
            self.wf(),
        ensures
            r == forall|j: int| 0 <= j < self@.len() ==> self@[j] == Belnap::False,
    {
        self.all_in(Belnap::False, Belnap::False)
    }

    fn count(&self, v: Belnap) -> (r: usize)
        requires
            self.wf(),
        ensures
            r == belnap_count(self@, v),
    {
        let n = self.planes.width();
        let mut c: usize = 0;
        let mut i: usize = 0;
        while i < n
            invariant
                0 <= c <= i <= n,
                n == self@.len(),
                self.wf(),
                c == belnap_count(self@.subrange(0, i as int), v),
            decreases n - i,
        {
            let ghost pre = self@.subrange(0, i + 1);
            assert(pre.drop_last() =~= self@.subrange(0, i as int));
            if self.get_unchecked(i) == v {
                c += 1;
            }
            i += 1;
        }
        assert(self@.subrange(0, n as int) =~= self@);
        c
    }

    #[must_use]
    pub fn count_true(&self) -> (r: usize)
        requires
            self.wf(),
        ensures
            r == belnap_count(self@, Belnap::True),
    {
        self.count(Belnap::True)
    }

    #[must_use]
    pub fn count_false(&self) -> (r: usize)
        requires
            self.wf(),
        ensures
            r == belnap_count(self@, Belnap::False),
    {
        self.count(Belnap::False)
    }

    #[must_use]
    pub fn count_both(&self) -> (r: usize)
        requires
            self.wf(),
        ensures
            r == belnap_count(self@, Belnap::Both),
    {
        self.count(Belnap::Both)
    }

    #[must_use]
    pub fn count_unknown(&self) -> (r: usize)
        requires
            self.wf(),
        ensures
            r == belnap_count(self@, Belnap::Unknown),
    {
        self.count(Belnap::Unknown)
    }

    /// The same positions as a Kleene vector, if no position is `Both`.
    #[must_use]
    pub fn to_kleene(&self) -> (r: Option<KleeneVec>)
        requires
            self.wf(),
        ensures
            match r {
                Some(k) => k.wf() && (forall|j: int| 0 <= j < self@.len() ==> self@[j] != Belnap::Both)
                    && k@ == Seq::new(self@.len(), |j: int| kleene_of(belnap_bits(self@[j]))),
                None => exists|j: int| 0 <= j < self@.len() && self@[j] == Belnap::Both,
            },
    {
        if self.is_consistent() {
            let planes = self.planes.copy();
            proof {
                assert forall|i: int| 0 <= i < planes.view().len() implies !(#[trigger] planes.view()[i]).0 || !planes.view()[i].1 by {
                    assert(self@[i] != Belnap::Both);
                }
            }
            let k = KleeneVec::from_planes(planes);
            proof {
                assert forall|j: int| 0 <= j < self@.len() implies belnap_bits(self@[j]) == self.planes.view()[j] by {
                    let p = self.planes.view()[j];
                    assert(belnap_bits(belnap_of(p)) == p);
                }
                assert(k@ =~= Seq::new(self@.len(), |j: int| kleene_of(belnap_bits(self@[j]))));
            }
            Some(k)
        } else {
            None
        }
    }
}

impl<'a> From<&'a KleeneVec> for BelnapVec {
    fn from(kv: &'a KleeneVec) -> (r: BelnapVec)
        ensures
            kv.wf() ==> r.wf() && r@ == kv@.map_values(|k: Kleene| belnap_from_kleene(k)),
    {
        let planes = kv.planes().copy();
        proof {
            if kv.wf() {
                kv.lemma_planes();
                assert(planes.view().map_values(|p: (bool, bool)| belnap_of(p)) =~= kv@.map_values(
                    |k: Kleene| belnap_from_kleene(k),
                ));
            }
        }
        BelnapVec { planes }
    }
}

impl<'a> vstd::std_specs::convert::FromSpecImpl<&'a KleeneVec> for BelnapVec {
    open spec fn obeys_from_spec() -> bool {
        false
    }

    open spec fn from_spec(kv: &'a KleeneVec) -> BelnapVec {
        BelnapVec::new_spec()
    }
}

} // verus!
