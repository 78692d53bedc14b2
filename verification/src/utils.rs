//! Sequence sources and chunking: the pieces the render scheduler is built
//! from.
//!
//! A [`Source`] hands out the values of an abstract sequence one by one;
//! [`RangeChunks`] and [`ChunkIter`] split an index range into consecutive
//! chunks; [`CartesianProduct`] pairs every value of one source with every
//! value of another.

use vstd::prelude::*;
use vstd::arithmetic::div_mod::{
    lemma_basic_div, lemma_div_plus_one, lemma_mod_add_multiples_vanish,
};
use core::ops::Range;

verus! {

/// A clone whose result provably carries the same abstract value.
pub trait DeepClone: DeepView + Sized {
    fn deep_clone(&self) -> (r: Self)
        ensures
            r.deep_view() == self.deep_view(),
    ;
}

impl DeepClone for u32 {
    fn deep_clone(&self) -> (r: u32) {
        *self
    }
}

impl DeepClone for usize {
    fn deep_clone(&self) -> (r: usize) {
        *self
    }
}

impl<A: DeepClone, B: DeepClone> DeepClone for (A, B) {
    fn deep_clone(&self) -> (r: (A, B)) {
        (self.0.deep_clone(), self.1.deep_clone())
    }
}

impl<T: DeepClone> DeepClone for Vec<T> {
    fn deep_clone(&self) -> (r: Vec<T>) {
        let mut r: Vec<T> = Vec::new();
        let mut i: usize = 0;
        while i < self.len()
            invariant
                i <= self.len(),
                r@.len() == i,
                forall|j: int| 0 <= j < i ==> #[trigger] r@[j].deep_view() == self@[j].deep_view(),
            decreases self.len() - i,
        {
            let x = self[i].deep_clone();
            r.push(x);
            proof {
                assert(r@[i as int].deep_view() == self@[i as int].deep_view());
            }
            i = i + 1;
        }
        proof {
            assert(r.deep_view() =~~= self.deep_view());
        }
        r
    }
}

/// Hands out the values of a finite sequence, front first; `todo` is the
/// sequence of abstract values still to come.
pub trait Source<E: DeepView>: Sized {
    /// What the source asks of its state; `new` of each source establishes
    /// it, and `next` keeps it.
    spec fn wf(&self) -> bool;

    /// The values still to come, front first.
    spec fn todo(&self) -> Seq<E::V>;

    fn next(&mut self) -> (r: Option<E>)
        requires
            old(self).wf(),
        ensures
            final(self).wf(),
            old(self).todo().len() == 0 ==> r is None && final(self).todo() == old(self).todo(),
            old(self).todo().len() > 0 ==> r is Some && r.unwrap().deep_view() == old(
                self,
            ).todo()[0] && final(self).todo() == old(self).todo().drop_first(),
    ;

    /// How many values are still to come, as an exact lower and upper bound.
    fn size_hint(&self) -> (r: (usize, Option<usize>))
        requires
            self.wf(),
            self.todo().len() <= usize::MAX,
        ensures
            r.0 == self.todo().len(),
            r.1 == Some(r.0),
    ;
}

/// A source backed by a vector of values.
pub struct VecSource<T> {
    items: Vec<T>,
    pos: usize,
}

impl<T: DeepClone> VecSource<T> {
    pub fn new(items: Vec<T>) -> (r: VecSource<T>)
        ensures
            r.wf(),
            r.todo() == items.deep_view(),
    {
        let r = VecSource { items, pos: 0 };
        proof {
            assert(r.todo() =~~= r.items.deep_view());
        }
        r
    }
}

impl<T: DeepClone> Source<T> for VecSource<T> {
    open spec fn wf(&self) -> bool {
        true
    }

    closed spec fn todo(&self) -> Seq<T::V> {
        if self.pos <= self.items.len() {
            self.items.deep_view().skip(self.pos as int)
        } else {
            Seq::empty()
        }
    }

    fn next(&mut self) -> (r: Option<T>) {
        if self.pos < self.items.len() {
            let x = self.items[self.pos].deep_clone();
            self.pos = self.pos + 1;
            proof {
                assert(final(self).todo() =~~= old(self).todo().drop_first());
            }
            Some(x)
        } else {
            None
        }
    }

    fn size_hint(&self) -> (r: (usize, Option<usize>)) {
        if self.pos <= self.items.len() {
            let n = self.items.len() - self.pos;
            (n, Some(n))
        } else {
            (0, Some(0))
        }
    }
}

/// The integers of `[lo, hi)`, in order.
pub open spec fn int_range_seq(lo: int, hi: int) -> Seq<usize> {
    Seq::new(if hi >= lo {
        (hi - lo) as nat
    } else {
        0
    }, |i: int| (lo + i) as usize)
}

/// Splits an index range into consecutive chunks of at most `chunk_size`
/// indices; every index of the range lands in exactly one chunk.
#[derive(Debug, PartialEq)]
pub struct RangeChunks {
    range: Range<usize>,
    chunk_size: usize,
}

impl RangeChunks {
    /// First index not yet handed out.
    pub closed spec fn cur(&self) -> int {
        self.range.start as int
    }

    /// One past the last index of the range.
    pub closed spec fn end(&self) -> int {
        self.range.end as int
    }

    /// The chunk size.
    pub closed spec fn size(&self) -> int {
        self.chunk_size as int
    }

    pub open spec fn wf(&self) -> bool {
        &&& 1 <= self.size()
        &&& self.cur() <= self.end()
    }

    pub fn new(range: Range<usize>, chunk_size: usize) -> (r: RangeChunks)
        requires
            1 <= chunk_size,
            range.start <= range.end,
        ensures
            r.wf(),
            r.cur() == range.start,
            r.end() == range.end,
            r.size() == chunk_size,
    {
        RangeChunks { range, chunk_size }
    }

    /// The next chunk: from the current index to at most `chunk_size`
    /// further, capped at the end of the range.
    pub fn next(&mut self) -> (r: Option<Range<usize>>)
        requires
            old(self).wf(),
        ensures
            final(self).wf(),
            final(self).end() == old(self).end(),
            final(self).size() == old(self).size(),
            old(self).cur() >= old(self).end() ==> r is None && final(self).cur() == old(
                self,
            ).cur(),
            old(self).cur() < old(self).end() ==> {
                let e = if old(self).cur() + old(self).size() <= old(self).end() {
                    old(self).cur() + old(self).size()
                } else {
                    old(self).end()
                };
                &&& r is Some
                &&& r.unwrap().start == old(self).cur()
                &&& r.unwrap().end == e
                &&& final(self).cur() == e
            },
    {
        if self.range.start >= self.range.end {
            return None;
        }
        let new_end = match self.range.start.checked_add(self.chunk_size) {
            Some(c) => if c <= self.range.end {
                c
            } else {
                self.range.end
            },
            None => self.range.end,
        };
        let item = self.range.start..new_end;
        self.range.start = new_end;
        Some(item)
    }

    /// How many chunks are still to come, as an exact lower and upper bound.
    pub fn size_hint(&self) -> (r: (usize, Option<usize>))
        requires
            self.wf(),
        ensures
            r.0 == range_chunk_count(self.cur(), self.end(), self.size()),
            r.1 == Some(r.0),
    {
        if self.range.start == self.range.end {
            return (0, Some(0));
        }
        let count = (self.range.end - self.range.start - 1) / self.chunk_size + 1;
        (count, Some(count))
    }
}

/// The number of chunks a range splits into.
pub open spec fn range_chunk_count(cur: int, end: int, size: int) -> int {
    if cur >= end {
        0
    } else {
        (end - cur - 1) / size + 1
    }
}

/// The consecutive chunks a range splits into: each chunk the integers from
/// its start to at most `size` further, capped at the end of the range.
pub open spec fn chunk_seq(cur: int, end: int, size: int) -> Seq<Seq<usize>>
    decreases end - cur,
{
    if cur >= end || size < 1 {
        Seq::empty()
    } else {
        let hi = if cur + size <= end {
            cur + size
        } else {
            end
        };
        seq![int_range_seq(cur, hi)] + chunk_seq(hi, end, size)
    }
}

/// A chunk sequence has exactly `range_chunk_count` chunks.
pub proof fn lemma_chunk_seq_len(cur: int, end: int, size: int)
    requires
        1 <= size,
    ensures
        chunk_seq(cur, end, size).len() == range_chunk_count(cur, end, size),
    decreases end - cur,
{
    if cur >= end {
    } else {
        let hi = if cur + size <= end {
            cur + size
        } else {
            end
        };
        lemma_chunk_seq_len(hi, end, size);
        if cur + size >= end {
            assert(chunk_seq(cur, end, size).len() == 1);
            lemma_basic_div(end - cur - 1, size);
            assert(range_chunk_count(cur, end, size) == 1);
        } else {
            lemma_div_plus_one(end - hi - 1, size);
            assert(end - cur - 1 == size + (end - hi - 1));
            assert((end - cur - 1) / size == (end - hi - 1) / size + 1);
        }
    }
}

/// Splits an index range into chunks handed out as vectors of indices.
#[derive(Debug)]
pub struct ChunkIter {
    next_start: usize,
    end: usize,
    chunk_size: usize,
}

impl ChunkIter {
    /// First index not yet handed out.
    pub closed spec fn cur(&self) -> int {
        self.next_start as int
    }

    /// One past the last index of the range.
    pub closed spec fn end(&self) -> int {
        self.end as int
    }

    /// The chunk size.
    pub closed spec fn size(&self) -> int {
        self.chunk_size as int
    }

    pub fn new(range: Range<usize>, chunk_size: usize) -> (r: ChunkIter)
        requires
            1 <= chunk_size,
            range.start <= range.end,
        ensures
            r.wf(),
            r.cur() == range.start,
            r.end() == range.end,
            r.size() == chunk_size,
    {
        ChunkIter { next_start: range.start, end: range.end, chunk_size }
    }
}

impl Source<Vec<usize>> for ChunkIter {
    open spec fn wf(&self) -> bool {
        &&& 1 <= self.size()
        &&& self.cur() <= self.end()
    }

    open spec fn todo(&self) -> Seq<Seq<usize>> {
        chunk_seq(self.cur(), self.end(), self.size())
    }

    fn next(&mut self) -> (r: Option<Vec<usize>>) {
        if self.next_start >= self.end {
            return None;
        }
        let hi = match self.next_start.checked_add(self.chunk_size) {
            Some(c) => if c <= self.end {
                c
            } else {
                self.end
            },
            None => self.end,
        };
        let mut v: Vec<usize> = Vec::new();
        let mut i: usize = self.next_start;
        while i < hi
            invariant
                self.next_start <= i <= hi,
                v@.len() == i - self.next_start,
                forall|j: int| 0 <= j < v@.len() ==> #[trigger] v@[j] == self.next_start + j,
            decreases hi - i,
        {
            v.push(i);
            i = i + 1;
        }
        proof {
            assert(v.deep_view() =~= int_range_seq(old(self).cur(), hi as int));
        }
        self.next_start = hi;
        proof {
            assert(old(self).todo()[0] == int_range_seq(old(self).cur(), hi as int));
            assert(final(self).todo() =~~= old(self).todo().drop_first());
        }
        Some(v)
    }

    fn size_hint(&self) -> (r: (usize, Option<usize>)) {
        proof {
            lemma_chunk_seq_len(self.cur(), self.end(), self.size());
        }
        if self.next_start >= self.end {
            return (0, Some(0));
        }
        proof {
            let num = self.end() - self.cur() - 1;
            assert(num / self.size() <= num) by (nonlinear_arith)
                requires
                    num >= 0,
                    self.size() >= 1,
            ;
        }
        let count = (self.end - self.next_start - 1) / self.chunk_size + 1;
        (count, Some(count))
    }
}

/// Every pair of a value of `aa` and a value of `bb`, the first component
/// varying slowest.
pub open spec fn cross<VA, VB>(aa: Seq<VA>, bb: Seq<VB>) -> Seq<(VA, VB)> {
    Seq::new(
        aa.len() * bb.len(),
        |k: int| (aa[k / (bb.len() as int)], bb[k % (bb.len() as int)]),
    )
}

/// Peeling the first value of `aa` off the cross product: its pairs with all
/// of `bb` come first, the cross product of the rest after.
pub proof fn lemma_cross_unfold<VA, VB>(aa: Seq<VA>, bb: Seq<VB>)
    requires
        aa.len() > 0,
        bb.len() > 0,
    ensures
        cross(aa, bb) == Seq::new(bb.len(), |j: int| (aa[0], bb[j])) + cross(
            aa.drop_first(),
            bb,
        ),
{
    let bn = bb.len() as int;
    let lhs = cross(aa, bb);
    let rhs = Seq::new(bb.len(), |j: int| (aa[0], bb[j])) + cross(aa.drop_first(), bb);
    assert(aa.len() * bn == bn + (aa.len() - 1) * bn) by (nonlinear_arith);
    assert((aa.len() - 1) * bn >= 0) by (nonlinear_arith)
        requires
            aa.len() >= 1,
            bn >= 0,
    ;
    assert forall|k: int| 0 <= k < lhs.len() implies lhs[k] == rhs[k] by {
        if k < bn {
            lemma_basic_div(k, bn);
            vstd::arithmetic::div_mod::lemma_small_mod(k as nat, bn as nat);
        } else {
            lemma_div_plus_one(k - bn, bn);
            lemma_mod_add_multiples_vanish(k - bn, bn);
            assert(k / bn == (k - bn) / bn + 1);
            assert(k % bn == (k - bn) % bn);
            assert(rhs[k] == cross(aa.drop_first(), bb)[k - bn]);
            vstd::arithmetic::div_mod::lemma_div_pos_is_pos(k - bn, bn);
            assert((k - bn) < bn * ((aa.len() - 1) as int)) by (nonlinear_arith)
                requires
                    k < aa.len() * bn,
                    bn > 0,
            ;
            vstd::arithmetic::div_mod::lemma_multiply_divide_lt(k - bn, bn, (aa.len() - 1) as int);
            assert(0 <= (k - bn) / bn < aa.len() - 1);
            assert(aa.drop_first()[(k - bn) / bn] == aa[k / bn]);
        }
    }
    assert(lhs =~= rhs);
}

/// Pairs every value of the source `a` with every value of `b`: the pairs
/// `(x, y)` for `x` from `a` and `y` from `b`, with `x` varying slowest.
pub struct CartesianProduct<T: DeepClone, U: DeepClone, A: Source<T>> {
    a_iter: A,
    a_curr: Option<T>,
    b_items: Vec<U>,
    b_pos: usize,
}

impl<T: DeepClone, U: DeepClone, A: Source<T>> CartesianProduct<T, U, A> {
    /// The pairs of the current first component with the rest of `b`.
    closed spec fn curr_block(&self) -> Seq<(T::V, U::V)> {
        match self.a_curr {
            None => Seq::empty(),
            Some(a) => Seq::new(
                if self.b_pos <= self.b_items.len() {
                    (self.b_items.len() - self.b_pos) as nat
                } else {
                    0
                },
                |j: int| (a.deep_view(), self.b_items.deep_view()[self.b_pos + j]),
            ),
        }
    }

    pub fn new(a: A, b: Vec<U>) -> (r: Self)
        requires
            a.wf(),
        ensures
            r.wf(),
            r.todo() == cross(a.todo(), b.deep_view()),
    {
        let ghost aa = a.todo();
        let mut a_iter = a;
        let a_curr = a_iter.next();
        let r = CartesianProduct { a_iter, a_curr, b_items: b, b_pos: 0 };
        proof {
            let bb = r.b_items.deep_view();
            if aa.len() == 0 {
                assert(r.todo() =~~= cross(aa, bb));
            } else if bb.len() == 0 {
                assert(aa.len() * 0 == 0) by (nonlinear_arith);
                assert(aa.drop_first().len() * 0 == 0) by (nonlinear_arith);
                assert(r.todo() =~~= cross(aa, bb));
            } else {
                lemma_cross_unfold(aa, bb);
                assert(r.curr_block() =~~= Seq::new(bb.len(), |j: int| (aa[0], bb[j])));
                assert(r.todo() =~~= cross(aa, bb));
            }
        }
        r
    }

    /// How many pairs are still to come, as an exact lower and upper bound.
    pub fn size_hint_exact(&self) -> (r: (usize, Option<usize>))
        requires
            self.wf(),
            self.todo().len() <= usize::MAX,
        ensures
            r.0 == self.todo().len(),
            r.1 == Some(r.0),
    {
        let bn = self.b_items.len();
        if bn == 0 {
            proof {
                assert(self.a_iter.todo().len() * 0 == 0) by (nonlinear_arith);
                assert(self.todo().len() == 0);
            }
            return (0, Some(0));
        }
        let bc = if self.a_curr.is_some() {
            bn - self.b_pos
        } else {
            0
        };
        proof {
            assert(self.a_iter.todo().len() <= self.a_iter.todo().len() * (bn as int))
                by (nonlinear_arith)
                requires
                    bn >= 1,
                    self.a_iter.todo().len() >= 0,
            ;
        }
        let (rest, _) = self.a_iter.size_hint();
        proof {
            assert(rest * bn == self.a_iter.todo().len() * (bn as int)) by (nonlinear_arith)
                requires
                    rest == self.a_iter.todo().len(),
            ;
        }
        let count = bc + rest * bn;
        (count, Some(count))
    }
}

impl<T: DeepClone, U: DeepClone, A: Source<T>> Source<(T, U)> for CartesianProduct<T, U, A> {
    closed spec fn wf(&self) -> bool {
        &&& self.a_iter.wf()
        &&& self.b_pos <= self.b_items.len()
        &&& (self.a_curr is None ==> self.a_iter.todo().len() == 0)
    }

    closed spec fn todo(&self) -> Seq<(T::V, U::V)> {
        self.curr_block() + cross(self.a_iter.todo(), self.b_items.deep_view())
    }

    fn size_hint(&self) -> (r: (usize, Option<usize>)) {
        self.size_hint_exact()
    }

    fn next(&mut self) -> (r: Option<(T, U)>) {
        let ghost aa0 = self.a_iter.todo();
        let ghost bb = self.b_items.deep_view();
        let u: U;
        if self.b_pos < self.b_items.len() {
            u = self.b_items[self.b_pos].deep_clone();
            self.b_pos = self.b_pos + 1;
            proof {
                if self.a_curr is Some {
                    assert(old(self).todo()[0] == (old(self).a_curr.unwrap().deep_view(), bb[
                        old(self).b_pos as int]));
                    assert(final(self).todo() =~~= old(self).todo().drop_first());
                } else {
                    assert(aa0.len() * bb.len() == 0) by (nonlinear_arith)
                        requires
                            aa0.len() == 0,
                    ;
                    assert(old(self).todo().len() == 0);
                    assert(final(self).todo() =~~= old(self).todo());
                }
            }
        } else {
            self.b_pos = 0;
            let nxt = self.a_iter.next();
            self.a_curr = nxt;
            if self.b_items.len() > 0 {
                proof {
                    assert(old(self).curr_block().len() == 0);
                    assert(old(self).todo() =~~= cross(aa0, bb));
                    if aa0.len() == 0 {
                        assert(old(self).todo().len() == aa0.len() * bb.len());
                        assert(aa0.len() * bb.len() == 0) by (nonlinear_arith)
                            requires
                                aa0.len() == 0,
                        ;
                    } else {
                        lemma_cross_unfold(aa0, bb);
                        assert(aa0.len() * bb.len() > 0) by (nonlinear_arith)
                            requires
                                aa0.len() > 0,
                                bb.len() > 0,
                        ;
                    }
                }
                u = self.b_items[0].deep_clone();
                self.b_pos = 1;
                proof {
                    if aa0.len() > 0 {
                        assert(self.curr_block() =~~= Seq::new(bb.len(), |j: int| (aa0[0], bb[j]))
                            .drop_first());
                        assert(old(self).todo()[0] == (aa0[0], bb[0]));
                        assert(final(self).todo() =~~= old(self).todo().drop_first());
                    } else {
                        assert(final(self).todo() =~~= old(self).todo());
                    }
                }
            } else {
                proof {
                    assert(aa0.len() * 0 == 0) by (nonlinear_arith);
                    assert(final(self).a_iter.todo().len() * 0 == 0) by (nonlinear_arith);
                    assert(old(self).todo().len() == 0);
                    assert(final(self).todo().len() == 0);
                    assert(final(self).todo() =~~= old(self).todo());
                }
                return None;
            }
        }
        let t = match &self.a_curr {
            Some(a) => a.deep_clone(),
            None => {
                proof {
                    assert(old(self).todo().len() == 0);
                    assert(final(self).todo() =~~= old(self).todo());
                }
                return None;
            },
        };
        Some((t, u))
    }
}

/// Pairs every value of `a` with every value of `b`.
pub fn cartesian_product<T: DeepClone, U: DeepClone, A: Source<T>>(a: A, b: Vec<U>) -> (r:
    CartesianProduct<T, U, A>)
    requires
        a.wf(),
    ensures
        r.wf(),
        r.todo() == cross(a.todo(), b.deep_view()),
{
    CartesianProduct::new(a, b)
}

} // verus!
