//! Two bitplanes, interleaved word by word (`[pos_0, neg_0, pos_1, neg_1, ...]`): the
//! packed storage shared by the Kleene and Belnap vectors.

use vstd::prelude::*;

verus! {

/// Bit `b` of the word `w`.
pub open spec fn bit(w: u64, b: int) -> bool {
    (w >> (b as u64)) & 1u64 == 1u64
}

/// The number of 64-bit words that hold `n` positions.
pub open spec fn nwords(n: int) -> int {
    (n + 63) / 64
}

/// The `k`-th word, or zero past the end.
pub open spec fn wz(words: Seq<u64>, k: int) -> u64 {
    if 0 <= k < words.len() {
        words[k]
    } else {
        0
    }
}

/// The positive-plane bit of position `i`.
pub open spec fn pos_at(words: Seq<u64>, i: int) -> bool {
    bit(wz(words, 2 * (i / 64)), i % 64)
}

/// The negative-plane bit of position `i`.
pub open spec fn neg_at(words: Seq<u64>, i: int) -> bool {
    bit(wz(words, 2 * (i / 64) + 1), i % 64)
}

/// The largest width a vector may take: its word count must fit in `usize`.
pub const MAX_WIDTH: usize = usize::MAX - 63;

pub proof fn lemma_bit_ops(x: u64, y: u64, b: int)
    requires
        0 <= b < 64,
    ensures
        bit(x & y, b) == (bit(x, b) && bit(y, b)),
        bit(x | y, b) == (bit(x, b) || bit(y, b)),
        bit(!x, b) == !bit(x, b),
        !bit(0, b),
        bit(u64::MAX, b),
{
    let c = b as u64;
    assert(((x & y) >> c) & 1 == 1 <==> ((x >> c) & 1 == 1 && (y >> c) & 1 == 1)) by (bit_vector)
        requires
            c < 64,
    ;
    assert(((x | y) >> c) & 1 == 1 <==> ((x >> c) & 1 == 1 || (y >> c) & 1 == 1)) by (bit_vector)
        requires
            c < 64,
    ;
    assert(((!x) >> c) & 1 == 1 <==> !((x >> c) & 1 == 1)) by (bit_vector)
        requires
            c < 64,
    ;
    assert(!((0u64 >> c) & 1 == 1)) by (bit_vector);
    assert((0xffff_ffff_ffff_ffffu64 >> c) & 1 == 1) by (bit_vector)
        requires
            c < 64,
    ;
}

pub proof fn lemma_single_bit(b: int, k: int)
    requires
        0 <= b < 64,
        0 <= k < 64,
    ensures
        bit(1u64 << (b as u64), k) == (k == b),
{
    let c = b as u64;
    let d = k as u64;
    assert(((1u64 << c) >> d) & 1 == 1 <==> c == d) by (bit_vector)
        requires
            c < 64,
            d < 64,
    ;
}

/// The mask of the positions of the last word that a width of `n` uses.
pub open spec fn tail_mask_spec(n: int) -> u64 {
    if n % 64 == 0 {
        u64::MAX
    } else {
        ((1u64 << ((n % 64) as u64)) - 1) as u64
    }
}

pub proof fn lemma_tail_mask(n: int, k: int)
    requires
        0 <= n,
        0 <= k < 64,
    ensures
        bit(tail_mask_spec(n), k) == (n % 64 == 0 || k < n % 64),
{
    if n % 64 == 0 {
        lemma_bit_ops(0, 0, k);
    } else {
        let r = (n % 64) as u64;
        let d = k as u64;
        assert((((1u64 << r) - 1) as u64 >> d) & 1 == 1 <==> d < r) by (bit_vector)
            requires
                0 < r < 64,
                d < 64,
        ;
    }
}

pub fn words_needed(n: usize) -> (r: usize)
    requires
        n <= MAX_WIDTH,
    ensures
        r == nwords(n as int),
{
    (n + 63) / 64
}

pub fn tail_mask(n: usize) -> (r: u64)
    ensures
        r == tail_mask_spec(n as int),
{
    let r = n % 64;
    if r == 0 {
        u64::MAX
    } else {
        assert(1u64 << (r as u64) >= 1) by (bit_vector)
            requires
                r < 64,
        ;
        (1u64 << (r as u64)) - 1
    }
}

/// How two bitplane vectors combine, position by position.
#[derive(Debug, Clone, Copy, PartialEq, Eq, Structural)]
pub enum WordOp {
    /// Positive bits meet, negative bits join.
    And,
    /// Positive bits join, negative bits meet.
    Or,
    /// Both planes join.
    Merge,
}

pub open spec fn op_pair(op: WordOp, a: (bool, bool), b: (bool, bool)) -> (bool, bool) {
    match op {
        WordOp::And => (a.0 && b.0, a.1 || b.1),
        WordOp::Or => (a.0 || b.0, a.1 && b.1),
        WordOp::Merge => (a.0 || b.0, a.1 || b.1),
    }
}

pub fn word_op(op: WordOp, a_pos: u64, a_neg: u64, b_pos: u64, b_neg: u64) -> (r: (u64, u64))
    ensures
        forall|k: int|
            0 <= k < 64 ==> (bit(r.0, k), bit(r.1, k)) == op_pair(
                op,
                (bit(a_pos, k), bit(a_neg, k)),
                (bit(b_pos, k), bit(b_neg, k)),
            ),
{
    let r = match op {
        WordOp::And => (a_pos & b_pos, a_neg | b_neg),
        WordOp::Or => (a_pos | b_pos, a_neg & b_neg),
        WordOp::Merge => (a_pos | b_pos, a_neg | b_neg),
    };
    proof {
        assert forall|k: int| 0 <= k < 64 implies (bit(r.0, k), bit(r.1, k)) == op_pair(
            op,
            (bit(a_pos, k), bit(a_neg, k)),
            (bit(b_pos, k), bit(b_neg, k)),
        ) by {
            lemma_bit_ops(a_pos, b_pos, k);
            lemma_bit_ops(a_neg, b_neg, k);
        }
    }
    r
}

/// Positions as (positive, negative) bit pairs, packed 64 to a word pair.
#[derive(Debug, Clone, PartialEq, Eq)]
pub struct Planes {
    width: usize,
    words: Vec<u64>,
}

/// The pairs of a vector, with `(false, false)` past its width.
pub open spec fn pair_or_empty(s: Seq<(bool, bool)>, i: int) -> (bool, bool) {
    if 0 <= i < s.len() {
        s[i]
    } else {
        (false, false)
    }
}

impl Planes {
    pub closed spec fn wf(&self) -> bool {
        &&& self.width <= MAX_WIDTH
        &&& self.words.len() == 2 * nwords(self.width as int)
        &&& forall|i: int| i >= self.width ==> !pos_at(self.words@, i) && !neg_at(self.words@, i)
    }

    pub closed spec fn view(&self) -> Seq<(bool, bool)> {
        Seq::new(self.width as nat, |i: int| (pos_at(self.words@, i), neg_at(self.words@, i)))
    }

    proof fn lemma_zero_words(words: Seq<u64>, i: int)
        requires
            forall|k: int| 0 <= k < words.len() ==> words[k] == 0,
            0 <= i,
        ensures
            !pos_at(words, i),
            !neg_at(words, i),
    {
        lemma_bit_ops(0, 0, i % 64);
    }

    /// `width` positions, all `(false, false)`.
    pub fn new(width: usize) -> (r: Planes)
        requires
            width <= MAX_WIDTH,
        ensures
            r.wf(),
            r.view().len() == width,
            r.view() == Seq::new(width as nat, |i: int| (false, false)),
    {
        let nw = words_needed(width);
        let words: Vec<u64> = vec![0; 2 * nw];
        let r = Planes { width, words };
        proof {
            assert forall|i: int| i >= 0 implies !pos_at(r.words@, i) && !neg_at(r.words@, i) by {
                Planes::lemma_zero_words(r.words@, i);
            }
            assert(r.view() =~= Seq::new(width as nat, |i: int| (false, false)));
        }
        r
    }

    /// `width` positions, all `(p, n)`.
    pub fn filled(width: usize, p: bool, n: bool) -> (r: Planes)
        requires
            width <= MAX_WIDTH,
        ensures
            r.wf(),
            r.view().len() == width,
            r.view() == Seq::new(width as nat, |i: int| (p, n)),
    {
        let nw = words_needed(width);
        let pw: u64 = if p { u64::MAX } else { 0 };
        let nw_word: u64 = if n { u64::MAX } else { 0 };
        let mut words: Vec<u64> = Vec::with_capacity(2 * nw);
        let mut k: usize = 0;
        while k < nw
            invariant
                0 <= k <= nw,
                nw == nwords(width as int),
                width <= MAX_WIDTH,
                words.len() == 2 * k,
                forall|j: int| 0 <= j < k ==> #[trigger] words@[2 * j] == pw && words@[2 * j + 1] == nw_word,
            decreases nw - k,
        {
            let ghost before = words@;
            words.push(pw);
            words.push(nw_word);
            assert forall|j: int| 0 <= j < k + 1 implies #[trigger] words@[2 * j] == pw && words@[2 * j + 1]
                == nw_word by {
                if j < k {
                    assert(words@[2 * j] == before[2 * j]);
                    assert(words@[2 * j + 1] == before[2 * j + 1]);
                }
            }
            k += 1;
        }
        let mut r = Planes { width, words };
        proof {
            assert forall|i: int| 0 <= i < 64 * nw implies pos_at(r.words@, i) == p && neg_at(r.words@, i) == n by {
                lemma_bit_ops(0, 0, i % 64);
                assert(words@[2 * (i / 64)] == pw);
            }
            assert forall|i: int| i >= 64 * nw implies !pos_at(r.words@, i) && !neg_at(r.words@, i) by {
                lemma_bit_ops(0, 0, i % 64);
            }
        }
        r.mask_tail();
        r
    }

    /// Clears the positions past the width in the last word pair.
    fn mask_tail(&mut self)
        requires
            old(self).width <= MAX_WIDTH,
            old(self).words.len() == 2 * nwords(old(self).width as int),
            forall|i: int| i >= 64 * nwords(old(self).width as int) ==> !pos_at(old(self).words@, i) && !neg_at(old(self).words@, i),
        ensures
            final(self).wf(),
            final(self).width == old(self).width,
            forall|i: int|
                0 <= i < old(self).width ==> pos_at(final(self).words@, i) == pos_at(old(self).words@, i)
                    && neg_at(final(self).words@, i) == neg_at(old(self).words@, i),
    {
        let nw = words_needed(self.width);
        let ghost before = self.words@;
        if nw > 0 {
            let m = tail_mask(self.width);
            let a = self.words[2 * (nw - 1)];
            let b = self.words[2 * (nw - 1) + 1];
            self.words.set(2 * (nw - 1), a & m);
            self.words.set(2 * (nw - 1) + 1, b & m);
            proof {
                assert forall|i: int| 0 <= i < self.width implies pos_at(self.words@, i) == pos_at(before, i)
                    && neg_at(self.words@, i) == neg_at(before, i) by {
                    lemma_bit_ops(a, m, i % 64);
                    lemma_bit_ops(b, m, i % 64);
                    lemma_tail_mask(self.width as int, i % 64);
                }
                assert forall|i: int| i >= self.width implies !pos_at(self.words@, i) && !neg_at(self.words@, i) by {
                    lemma_bit_ops(a, m, i % 64);
                    lemma_bit_ops(b, m, i % 64);
                    lemma_tail_mask(self.width as int, i % 64);
                    lemma_bit_ops(0, 0, i % 64);
                    if i < 64 * nw {
                        assert(i / 64 == nw - 1);
                        assert(self.width % 64 != 0 && i % 64 >= self.width % 64);
                    }
                }
            }
        } else {
            proof {
                assert forall|i: int| i >= self.width implies !pos_at(self.words@, i) && !neg_at(self.words@, i) by {
                    lemma_bit_ops(0, 0, i % 64);
                }
            }
        }
    }

    pub fn width(&self) -> (r: usize)
        ensures
            r == self.view().len(),
    {
        self.width
    }

    pub fn get(&self, i: usize) -> (r: (bool, bool))
        requires
            self.wf(),
            i < self.view().len(),
        ensures
            r == self.view()[i as int],
    {
        let w = i / 64;
        let b = (i % 64) as u64;
        let p = (self.words[2 * w] >> b) & 1 == 1;
        let n = (self.words[2 * w + 1] >> b) & 1 == 1;
        (p, n)
    }

    pub fn copy(&self) -> (r: Planes)
        ensures
            r.wf() == self.wf(),
            r.view() == self.view(),
            r.view().len() == self.view().len(),
    {
        Planes { width: self.width, words: self.words.clone() }
    }

    /// Writes the pair of position `i`, growing the vector with `(false, false)`
    /// positions first when `i` is past its end.
    pub fn set(&mut self, i: usize, p: bool, n: bool)
        requires
            old(self).wf(),
            i < MAX_WIDTH,
        ensures
            final(self).wf(),
            final(self).view().len() == if i < old(self).view().len() {
                old(self).view().len()
            } else {
                (i + 1) as nat
            },
            final(self).view() == Seq::new(
                final(self).view().len() as nat,
                |j: int| if j == i { (p, n) } else { pair_or_empty(old(self).view(), j) },
            ),
    {
        let ghost start = self.words@;
        let ghost old_width = self.width;
        if i >= self.width {
            let new_nw = words_needed(i + 1);
            let mut k = words_needed(self.width);
            while k < new_nw
                invariant
                    nwords(old_width as int) <= k <= new_nw,
                    new_nw == nwords(i + 1),
                    self.words.len() == 2 * k,
                    self.width == old_width,
                    forall|x: int| wz(self.words@, x) == wz(start, x),
                decreases new_nw - k,
            {
                let ghost before = self.words@;
                self.words.push(0);
                self.words.push(0);
                assert forall|x: int| wz(self.words@, x) == wz(start, x) by {
                    assert(wz(self.words@, x) == wz(before, x));
                }
                k += 1;
            }
            self.width = i + 1;
        }
        let ghost mid = self.words@;
        assert forall|j: int| 0 <= j implies pos_at(mid, j) == pos_at(start, j) && neg_at(mid, j) == neg_at(
            start,
            j,
        ) by {
            assert(wz(mid, 2 * (j / 64)) == wz(start, 2 * (j / 64)));
            assert(wz(mid, 2 * (j / 64) + 1) == wz(start, 2 * (j / 64) + 1));
        }
        let w = i / 64;
        let b = (i % 64) as u64;
        assert(1u64 << b >= 1) by (bit_vector)
            requires
                b < 64,
        ;
        let m = 1u64 << b;
        let a0 = self.words[2 * w];
        let a1 = self.words[2 * w + 1];
        let p_word = if p { a0 | m } else { a0 & !m };
        let n_word = if n { a1 | m } else { a1 & !m };
        self.words.set(2 * w, p_word);
        self.words.set(2 * w + 1, n_word);
        proof {
            assert forall|j: int| 0 <= j implies {
                &&& j == i ==> pos_at(self.words@, j) == p && neg_at(self.words@, j) == n
                &&& j != i ==> pos_at(self.words@, j) == pos_at(mid, j) && neg_at(self.words@, j) == neg_at(mid, j)
            } by {
                lemma_single_bit(b as int, j % 64);
                lemma_bit_ops(a0, m, j % 64);
                lemma_bit_ops(a1, m, j % 64);
                lemma_bit_ops(a0, !m, j % 64);
                lemma_bit_ops(a1, !m, j % 64);
                lemma_bit_ops(m, m, j % 64);
                if j / 64 == w as int {
                    assert(wz(self.words@, 2 * (j / 64)) == p_word);
                    assert(wz(self.words@, 2 * (j / 64) + 1) == n_word);
                    assert(wz(mid, 2 * (j / 64)) == a0);
                    assert(wz(mid, 2 * (j / 64) + 1) == a1);
                    if j != i {
                        assert(j % 64 != b as int);
                    }
                } else {
                    assert(wz(self.words@, 2 * (j / 64)) == wz(mid, 2 * (j / 64)));
                    assert(wz(self.words@, 2 * (j / 64) + 1) == wz(mid, 2 * (j / 64) + 1));
                }
            }
            assert forall|j: int| j >= self.width implies !pos_at(self.words@, j) && !neg_at(self.words@, j) by {
                assert(j != i);
                assert(j >= old_width);
                assert(pos_at(self.words@, j) == pos_at(mid, j));
                assert(neg_at(self.words@, j) == neg_at(mid, j));
                assert(pos_at(mid, j) == pos_at(start, j));
                assert(neg_at(mid, j) == neg_at(start, j));
            }
            assert forall|j: int| 0 <= j < self.width implies #[trigger] self.view()[j] == if j == i {
                (p, n)
            } else {
                pair_or_empty(old(self).view(), j)
            } by {
                assert(pos_at(mid, j) == pos_at(start, j));
                assert(neg_at(mid, j) == neg_at(start, j));
            }
            assert(self.view() =~= Seq::new(
                self.width as nat,
                |j: int| if j == i { (p, n) } else { pair_or_empty(old(self).view(), j) },
            ));
        }
    }

    /// Keeps the first `n` positions.
    pub fn truncate(&mut self, n: usize)
        requires
            old(self).wf(),
        ensures
            final(self).wf(),
            final(self).view().len() == if n < old(self).view().len() {
                n as nat
            } else {
                old(self).view().len()
            },
            final(self).view() == if n < old(self).view().len() {
                old(self).view().subrange(0, n as int)
            } else {
                old(self).view()
            },
    {
        if n >= self.width {
            return;
        }
        let ghost start = self.words@;
        self.width = n;
        let nw = words_needed(n);
        self.words.truncate(2 * nw);
        proof {
            assert forall|i: int| 0 <= i < n implies pos_at(self.words@, i) == pos_at(start, i) && neg_at(
                self.words@,
                i,
            ) == neg_at(start, i) by {}
            assert forall|i: int| i >= 64 * nwords(n as int) implies !pos_at(self.words@, i) && !neg_at(
                self.words@,
                i,
            ) by {
                lemma_bit_ops(0, 0, i % 64);
            }
        }
        self.mask_tail();
        proof {
            assert(self.view() =~= old(self).view().subrange(0, n as int));
        }
    }

    /// Grows the vector to `n` positions filled with `(p, q)`, or cuts it to `n`.
    pub fn resize(&mut self, n: usize, p: bool, q: bool)
        requires
            old(self).wf(),
            n <= MAX_WIDTH,
        ensures
            final(self).wf(),
            final(self).view().len() == n,
            final(self).view() == Seq::new(
                n as nat,
                |j: int| if j < old(self).view().len() { old(self).view()[j] } else { (p, q) },
            ),
    {
        if n <= self.width {
            self.truncate(n);
            proof {
                assert(self.view() =~= Seq::new(
                    n as nat,
                    |j: int| if j < old(self).view().len() { old(self).view()[j] } else { (p, q) },
                ));
            }
            return;
        }
        let ghost start = self.words@;
        let old_width = self.width;
        let old_nw = words_needed(old_width);
        let new_nw = words_needed(n);
        let fp: u64 = if p { u64::MAX } else { 0 };
        let fq: u64 = if q { u64::MAX } else { 0 };
        proof {
            lemma_bit_ops(0, 0, 0);
        }
        if old_nw > 0 && old_width % 64 != 0 {
            let high = !tail_mask(old_width);
            let a0 = self.words[2 * (old_nw - 1)];
            let a1 = self.words[2 * (old_nw - 1) + 1];
            self.words.set(2 * (old_nw - 1), a0 | (fp & high));
            self.words.set(2 * (old_nw - 1) + 1, a1 | (fq & high));
            proof {
                assert forall|j: int| 0 <= j < 64 * old_nw implies {
                    &&& pos_at(self.words@, j) == if j < old_width { pos_at(start, j) } else { p }
                    &&& neg_at(self.words@, j) == if j < old_width { neg_at(start, j) } else { q }
                } by {
                    let b = j % 64;
                    let t = tail_mask_spec(old_width as int);
                    lemma_tail_mask(old_width as int, b);
                    lemma_bit_ops(t, 0, b);
                    lemma_bit_ops(fp, high, b);
                    lemma_bit_ops(fq, high, b);
                    lemma_bit_ops(a0, fp & high, b);
                    lemma_bit_ops(a1, fq & high, b);
                    lemma_bit_ops(u64::MAX, 0, b);
                    assert(high == !t);
                    assert(bit(fp, b) == p);
                    assert(bit(fq, b) == q);
                    if j / 64 == old_nw - 1 {
                        assert(wz(self.words@, 2 * (j / 64)) == a0 | (fp & high));
                        assert(wz(self.words@, 2 * (j / 64) + 1) == a1 | (fq & high));
                        assert(wz(start, 2 * (j / 64)) == a0);
                        assert(wz(start, 2 * (j / 64) + 1) == a1);
                        if j < old_width {
                            assert(b < old_width % 64);
                            assert(bit(t, b));
                        } else {
                            assert(b >= old_width % 64);
                            assert(!bit(t, b));
                            assert(!pos_at(start, j));
                            assert(!neg_at(start, j));
                        }
                    } else {
                        assert(j / 64 < old_nw - 1);
                        assert(j < old_width);
                        assert(wz(self.words@, 2 * (j / 64)) == wz(start, 2 * (j / 64)));
                        assert(wz(self.words@, 2 * (j / 64) + 1) == wz(start, 2 * (j / 64) + 1));
                    }
                }
            }
        } else {
            proof {
                assert forall|j: int| 0 <= j < 64 * old_nw implies {
                    &&& pos_at(self.words@, j) == if j < old_width { pos_at(start, j) } else { p }
                    &&& neg_at(self.words@, j) == if j < old_width { neg_at(start, j) } else { q }
                } by {
                    assert(j < old_width);
                }
            }
        }
        let ghost mid = self.words@;
        assert(forall|j: int| 0 <= j < 64 * old_nw ==> pos_at(mid, j) == (if j < old_width { pos_at(start, j) } else { p })
            && neg_at(mid, j) == (if j < old_width { neg_at(start, j) } else { q }));
        let mut k = old_nw;
        while k < new_nw
            invariant
                old_nw <= k <= new_nw,
                new_nw == nwords(n as int),
                old_nw == nwords(old_width as int),
                self.words.len() == 2 * k,
                self.width == old_width,
                old_width < n,
                n <= MAX_WIDTH,
                forall|x: int| 0 <= x < 2 * old_nw ==> self.words@[x] == mid[x],
                mid.len() == 2 * old_nw,
                forall|x: int| 2 * old_nw <= x < 2 * k ==> #[trigger] self.words@[x] == if x % 2 == 0 { fp } else { fq },
            decreases new_nw - k,
        {
            self.words.push(fp);
            self.words.push(fq);
            k += 1;
        }
        self.width = n;
        proof {
            assert forall|j: int| 0 <= j < 64 * new_nw implies {
                &&& pos_at(self.words@, j) == if j < old_width { pos_at(start, j) } else { p }
                &&& neg_at(self.words@, j) == if j < old_width { neg_at(start, j) } else { q }
            } by {
                lemma_bit_ops(0, 0, j % 64);
                lemma_bit_ops(u64::MAX, 0, j % 64);
                assert(bit(fp, j % 64) == p);
                assert(bit(fq, j % 64) == q);
                if j >= 64 * old_nw {
                    assert(2 * (j / 64) >= 2 * old_nw);
                    assert(2 * (j / 64) + 1 < 2 * new_nw);
                    assert(self.words@[2 * (j / 64)] == fp);
                    assert(self.words@[2 * (j / 64) + 1] == fq);
                    assert(j >= old_width);
                } else {
                    assert(self.words@[2 * (j / 64)] == mid[2 * (j / 64)]);
                    assert(self.words@[2 * (j / 64) + 1] == mid[2 * (j / 64) + 1]);
                    assert(pos_at(self.words@, j) == pos_at(mid, j));
                    assert(neg_at(self.words@, j) == neg_at(mid, j));
                }
            }
            assert forall|j: int| j >= 64 * new_nw implies !pos_at(self.words@, j) && !neg_at(self.words@, j) by {
                lemma_bit_ops(0, 0, j % 64);
            }
        }
        let ghost before_mask = self.words@;
        if p || q {
            self.mask_tail();
        } else {
            proof {
                assert forall|j: int| j >= self.width implies !pos_at(self.words@, j) && !neg_at(self.words@, j) by {
                    lemma_bit_ops(0, 0, j % 64);
                }
            }
        }
        proof {
            assert(self.view() =~= Seq::new(
                n as nat,
                |j: int| if j < old(self).view().len() { old(self).view()[j] } else { (p, q) },
            ));
        }
    }

    /// Swaps the two planes.
    pub fn swapped(&self) -> (r: Planes)
        requires
            self.wf(),
        ensures
            r.wf(),
            r.view().len() == self.view().len(),
            r.view() == Seq::new(self.view().len() as nat, |j: int| (self.view()[j].1, self.view()[j].0)),
    {
        let nw = self.words.len() / 2;
        let mut words: Vec<u64> = Vec::with_capacity(self.words.len());
        let mut k: usize = 0;
        while k < nw
            invariant
                0 <= k <= nw,
                2 * nw == self.words.len(),
                words.len() == 2 * k,
                forall|x: int| 0 <= x < 2 * k ==> #[trigger] words@[x] == if x % 2 == 0 {
                    self.words@[x + 1]
                } else {
                    self.words@[x - 1]
                },
            decreases nw - k,
        {
            words.push(self.words[2 * k + 1]);
            words.push(self.words[2 * k]);
            k += 1;
        }
        let r = Planes { width: self.width, words };
        proof {
            assert forall|j: int| 0 <= j implies pos_at(r.words@, j) == neg_at(self.words@, j) && neg_at(
                r.words@,
                j,
            ) == pos_at(self.words@, j) by {
                if 2 * (j / 64) < words.len() {
                    assert(words@[2 * (j / 64)] == self.words@[2 * (j / 64) + 1]);
                    assert(words@[2 * (j / 64) + 1] == self.words@[2 * (j / 64)]);
                }
            }
            assert(r.view() =~= Seq::new(self.width as nat, |j: int| (self.view()[j].1, self.view()[j].0)));
        }
        r
    }

    /// Combines two vectors position by position; the shorter one counts as
    /// `(false, false)` past its end.
    pub fn combine(&self, other: &Planes, op: WordOp) -> (r: Planes)
        requires
            self.wf(),
            other.wf(),
        ensures
            r.wf(),
            r.view().len() == if self.view().len() < other.view().len() {
                other.view().len()
            } else {
                self.view().len()
            },
            r.view() == Seq::new(
                r.view().len() as nat,
                |j: int| op_pair(op, pair_or_empty(self.view(), j), pair_or_empty(other.view(), j)),
            ),
    {
        let width = if self.width < other.width { other.width } else { self.width };
        let nw = words_needed(width);
        let mut words: Vec<u64> = Vec::with_capacity(2 * nw);
        let mut k: usize = 0;
        while k < nw
            invariant
                0 <= k <= nw,
                nw == nwords(width as int),
                width <= MAX_WIDTH,
                self.wf(),
                other.wf(),
                words.len() == 2 * k,
                forall|j: int|
                    0 <= j < 64 * k ==> (#[trigger] pos_at(words@, j), neg_at(words@, j)) == op_pair(
                        op,
                        (pos_at(self.words@, j), neg_at(self.words@, j)),
                        (pos_at(other.words@, j), neg_at(other.words@, j)),
                    ),
            decreases nw - k,
        {
            let ap = if 2 * k < self.words.len() { self.words[2 * k] } else { 0 };
            let an = if 2 * k < self.words.len() { self.words[2 * k + 1] } else { 0 };
            let bp = if 2 * k < other.words.len() { other.words[2 * k] } else { 0 };
            let bn = if 2 * k < other.words.len() { other.words[2 * k + 1] } else { 0 };
            let pair = word_op(op, ap, an, bp, bn);
            let ghost before = words@;
            words.push(pair.0);
            words.push(pair.1);
            proof {
                assert forall|j: int| 0 <= j < 64 * (k + 1) implies (#[trigger] pos_at(words@, j), neg_at(words@, j))
                    == op_pair(
                    op,
                    (pos_at(self.words@, j), neg_at(self.words@, j)),
                    (pos_at(other.words@, j), neg_at(other.words@, j)),
                ) by {
                    if j < 64 * k {
                        assert(pos_at(before, j) == pos_at(words@, j));
                        assert(neg_at(before, j) == neg_at(words@, j));
                    } else {
                        assert(j / 64 == k);
                        assert(ap == wz(self.words@, 2 * k));
                    }
                }
            }
            k += 1;
        }
        let r = Planes { width, words };
        proof {
            assert forall|j: int| j >= width implies !pos_at(r.words@, j) && !neg_at(r.words@, j) by {
                lemma_bit_ops(0, 0, j % 64);
                if j < 64 * nw {
                    assert((pos_at(r.words@, j), neg_at(r.words@, j)) == op_pair(
                        op,
                        (pos_at(self.words@, j), neg_at(self.words@, j)),
                        (pos_at(other.words@, j), neg_at(other.words@, j)),
                    ));
                }
            }
            assert(r.view() =~= Seq::new(
                width as nat,
                |j: int| op_pair(op, pair_or_empty(self.view(), j), pair_or_empty(other.view(), j)),
            ));
        }
        r
    }
}

} // verus!
