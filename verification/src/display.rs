//! The pixel domain of a display and its row-major iterator.
//!
//! Pixels are pairs `(x, y)` with `x` varying fastest; the iterator walks the
//! domain from both ends and knows its exact remaining length.

use vstd::prelude::*;
use vstd::arithmetic::div_mod::lemma_fundamental_div_mod_converse;

verus! {

/// A display: a width times height pixel domain.
#[derive(Debug, Clone, Copy)]
pub struct Display {
    pub x: u32,
    pub y: u32,
}

impl Display {
    pub fn new(x: u32, y: u32) -> (r: Display)
        ensures
            r.x == x,
            r.y == y,
    {
        Display { x, y }
    }

    /// The number of pixels of the domain.
    pub fn size(&self) -> (r: usize)
        requires
            self.x * self.y <= usize::MAX,
        ensures
            r == self.x * self.y,
    {
        (self.x as usize) * (self.y as usize)
    }

    /// The row-major iterator over the whole domain.
    pub fn iter(&self) -> (r: DisplayIter)
        requires
            1 <= self.x,
            1 <= self.y,
            self.x * self.y <= usize::MAX,
        ensures
            r.wf(),
            r.display() == *self,
            r@ == domain_seq(*self),
    {
        DisplayIter::new(*self)
    }
}

/// The pixel at row-major index `i` of a display `w` pixels wide.
pub open spec fn pixel_at(w: int, i: int) -> (u32, u32) {
    (((i % w) as u32), ((i / w) as u32))
}

/// All pixels of a display, in row-major order.
pub open spec fn domain_seq(d: Display) -> Seq<(u32, u32)> {
    Seq::new((d.x * d.y) as nat, |i: int| pixel_at(d.x as int, i))
}

/// Walks the pixels of a display in row-major order, from either end.
#[derive(Debug, Clone, Copy)]
pub struct DisplayIter {
    display: Display,
    x_start: u32,
    x_end: u32,
    y_start: u32,
    y_end: u32,
}

impl View for DisplayIter {
    type V = Seq<(u32, u32)>;

    /// The pixels the iterator has still to yield, front first.
    closed spec fn view(&self) -> Seq<(u32, u32)> {
        Seq::new(
            (self.back_end() - self.front()) as nat,
            |i: int| pixel_at(self.display.x as int, self.front() + i),
        )
    }
}

impl DisplayIter {
    /// Row-major index of the next pixel the front will yield.
    closed spec fn front(self) -> int {
        self.y_start * self.display.x + self.x_start
    }

    /// One past the row-major index of the next pixel the back will yield.
    closed spec fn back_end(self) -> int {
        self.y_end * self.display.x + self.x_end + 1
    }

    /// The display the iterator walks.
    pub closed spec fn display(self) -> Display {
        self.display
    }

    /// Internal consistency: indices in bounds, the ends not crossed, and the
    /// front column resting at zero only on the first row.
    pub closed spec fn wf(self) -> bool {
        &&& 1 <= self.display.x
        &&& 1 <= self.display.y
        &&& self.x_start <= self.display.x
        &&& self.x_end < self.display.x
        &&& self.y_start < self.display.y
        &&& self.y_end < self.display.y
        &&& self.front() <= self.back_end()
        &&& (self.x_start == 0 ==> self.y_start == 0)
        &&& self.display.x * self.display.y <= usize::MAX
    }

    pub fn new(display: Display) -> (r: DisplayIter)
        requires
            1 <= display.x,
            1 <= display.y,
            display.x * display.y <= usize::MAX,
        ensures
            r.wf(),
            r.display() == display,
            r@ == domain_seq(display),
    {
        let r = DisplayIter {
            display,
            x_start: 0,
            x_end: display.x - 1,
            y_start: 0,
            y_end: display.y - 1,
        };
        proof {
            assert(r.front() == 0);
            assert((display.y - 1) * display.x + (display.x - 1) + 1 == display.x * display.y)
                by (nonlinear_arith);
            assert(r@ =~= domain_seq(display));
        }
        r
    }

    /// The number of pixels still to yield.
    pub fn len(&self) -> (r: usize)
        requires
            self.wf(),
        ensures
            r == self@.len(),
    {
        if self.y_start == self.y_end && self.x_start > self.x_end {
            return 0;
        }
        if self.y_start == self.y_end {
            return (self.x_end - self.x_start + 1) as usize;
        }
        if self.y_end < self.y_start {
            // unreachable under well-formedness; kept as a defensive guard
            proof {
                lemma_ends_not_crossed(*self);
            }
            return 0;
        }
        let w = self.display.x as usize;
        let start = (self.display.x - self.x_start) as usize;
        let height = (self.y_end - self.y_start - 1) as usize;
        let end = (self.x_end + 1) as usize;
        proof {
            let gw = self.display.x as int;
            let gs = start as int;
            let gh = height as int;
            let ge = end as int;
            assert(gs + gh * gw + ge == self.back_end() - self.front()) by (nonlinear_arith)
                requires
                    gs == self.display.x - self.x_start,
                    gh == self.y_end - self.y_start - 1,
                    ge == self.x_end + 1,
                    gw == self.display.x,
                    self.front() == self.y_start * self.display.x + self.x_start,
                    self.back_end() == self.y_end * self.display.x + self.x_end + 1,
            ;
            lemma_front_at_most_rows(*self);
            assert(gh * gw >= 0) by (nonlinear_arith)
                requires
                    gh >= 0,
                    gw >= 0,
            ;
        }
        let r = start + height * w + end;
        r
    }

    pub fn next(&mut self) -> (r: Option<(u32, u32)>)
        requires
            old(self).wf(),
        ensures
            final(self).wf(),
            final(self).display() == old(self).display(),
            old(self)@.len() == 0 ==> r is None && final(self)@ == old(self)@,
            old(self)@.len() > 0 ==> r == Some(old(self)@[0]) && final(self)@ == old(self)@
                .drop_first(),
    {
        if self.y_start == self.y_end && self.x_start > self.x_end {
            assert(old(self)@.len() == 0);
            return None;
        }
        if self.x_start >= self.display.x {
            proof {
                let ghost ys = self.y_start as int;
                let ghost w = self.display.x as int;
                assert((ys + 1) * w == ys * w + w) by (nonlinear_arith);
            }
            self.x_start = 0;
            self.y_start = self.y_start + 1;
            assert(self.front() == old(self).front());
        }
        if self.y_start > self.y_end {
            proof {
                let ghost w = self.display.x as int;
                let ghost ys = self.y_start as int;
                let ghost ye = self.y_end as int;
                let ghost oys = old(self).y_start as int;
                assert(ys * w >= (ye + 1) * w) by (nonlinear_arith)
                    requires
                        ys >= ye + 1,
                        w >= 1,
                ;
                assert((ye + 1) * w == ye * w + w) by (nonlinear_arith);
                assert(self.front() >= self.back_end());
                assert(old(self).front() == self.front());
                if old(self).x_start < old(self).display.x {
                    assert(old(self).x_start == 0);
                    assert(old(self).y_start == 0);
                } else {
                    assert(old(self).x_start == old(self).display.x);
                    assert(old(self).y_start != old(self).y_end);
                    assert(ys == oys + 1);
                    assert(oys > ye);
                    assert(oys * w >= (ye + 1) * w) by (nonlinear_arith)
                        requires
                            oys >= ye + 1,
                            w >= 1,
                    ;
                    assert(old(self).front() > self.back_end());
                }
                assert(false);
            }
            return None;
        }
        self.x_start = self.x_start + 1;
        let x = self.x_start - 1;
        let y = self.y_start;
        proof {
            let w = self.display.x as int;
            assert(self.front() == old(self).front() + 1);
            lemma_front_before_back(*old(self), y as int, x as int);
            lemma_fundamental_div_mod_converse(old(self).front(), w, y as int, x as int);
            assert(old(self)@[0] == pixel_at(w, old(self).front()));
            assert(final(self)@ =~= old(self)@.drop_first());
        }
        Some((x, y))
    }

    pub fn next_back(&mut self) -> (r: Option<(u32, u32)>)
        requires
            old(self).wf(),
        ensures
            final(self).wf(),
            final(self).display() == old(self).display(),
            old(self)@.len() == 0 ==> r is None && final(self)@ == old(self)@,
            old(self)@.len() > 0 ==> r == Some(old(self)@.last()) && final(self)@ == old(self)@
                .drop_last(),
    {
        if self.y_start == self.y_end && self.x_start > self.x_end {
            assert(old(self)@.len() == 0);
            return None;
        }
        if self.x_end == 0 {
            self.x_end = self.display.x - 1;
            if self.y_end == 0 {
                self.x_end = 0;
                self.x_start = 1;
                proof {
                    let w = self.display.x as int;
                    lemma_zero_front(*old(self));
                    assert(old(self).back_end() == 1);
                    assert(old(self)@.len() == 1);
                    lemma_fundamental_div_mod_converse(0int, w, 0int, 0int);
                    assert(old(self)@.last() == pixel_at(w, 0));
                    assert(self.front() == 1);
                    assert(final(self)@ =~= old(self)@.drop_last());
                }
                return Some((0, 0));
            }
            self.y_end = self.y_end - 1;
            let y = self.y_end + 1;
            proof {
                let w = self.display.x as int;
                let ghost oye = old(self).y_end as int;
                assert((oye - 1) * w + w == oye * w) by (nonlinear_arith);
                assert(self.back_end() == old(self).back_end() - 1);
                lemma_back_yield_nonempty(*old(self));
                lemma_fundamental_div_mod_converse(old(self).back_end() - 1, w, y as int, 0int);
                assert(old(self)@.last() == pixel_at(w, old(self).back_end() - 1));
                assert(final(self)@ =~= old(self)@.drop_last());
            }
            return Some((0, y));
        }
        if self.y_end < self.y_start {
            // unreachable under well-formedness; kept as a defensive guard
            proof {
                lemma_ends_not_crossed(*old(self));
            }
            return None;
        }
        self.x_end = self.x_end - 1;
        let x = self.x_end + 1;
        let y = self.y_end;
        proof {
            let w = self.display.x as int;
            assert(self.back_end() == old(self).back_end() - 1);
            lemma_back_yield_nonempty(*old(self));
            lemma_fundamental_div_mod_converse(old(self).back_end() - 1, w, y as int, x as int);
            assert(old(self)@.last() == pixel_at(w, old(self).back_end() - 1));
            assert(final(self)@ =~= old(self)@.drop_last());
        }
        Some((x, y))
    }
}

/// In a well-formed state the back row never lies strictly before the front
/// row while the same-row emptiness test is false: the defensive checks on
/// that condition guard states that cannot arise.
proof fn lemma_ends_not_crossed(it: DisplayIter)
    ensures
        !(it.wf() && it.y_end < it.y_start && !(it.y_start == it.y_end && it.x_start
            > it.x_end)),
{
    if it.wf() && it.y_end < it.y_start && !(it.y_start == it.y_end && it.x_start > it.x_end) {
        assert(it.y_start * it.display.x >= (it.y_end + 1) * it.display.x) by (nonlinear_arith)
            requires
                it.y_start >= it.y_end + 1,
                it.display.x >= 1,
        ;
        assert((it.y_end + 1) * it.display.x == it.y_end * it.display.x + it.display.x)
            by (nonlinear_arith);
        assert(it.front() >= it.y_start * it.display.x + it.x_start);
        assert(it.front() <= it.back_end());
        assert(it.x_start == 0);
        assert(it.y_start == 0);
    }
}

/// The front index never runs past the end of the display.
proof fn lemma_front_at_most_rows(it: DisplayIter)
    requires
        it.wf(),
    ensures
        it.back_end() <= it.display.x * it.display.y,
{
    assert((it.y_end + 1) * it.display.x <= it.display.y * it.display.x) by (nonlinear_arith)
        requires
            it.y_end + 1 <= it.display.y,
            it.display.x >= 1,
    ;
    assert((it.y_end + 1) * it.display.x == it.y_end * it.display.x + it.display.x)
        by (nonlinear_arith);
    assert(it.display.y * it.display.x == it.display.x * it.display.y) by (nonlinear_arith);
}

/// When the front is about to yield at column `x` of row `y`, the state is
/// nonempty and the yielded index sits strictly before the back end.
proof fn lemma_front_before_back(it: DisplayIter, y: int, x: int)
    requires
        it.wf(),
        !(it.y_start == it.y_end && it.x_start > it.x_end),
        it.front() == y * it.display.x + x,
        0 <= x < it.display.x,
        y == if it.x_start >= it.display.x {
            it.y_start + 1
        } else {
            it.y_start as int
        },
        x == if it.x_start >= it.display.x {
            0int
        } else {
            it.x_start as int
        },
        y <= it.y_end,
    ensures
        it.front() < it.back_end(),
{
    if y == it.y_end {
        assert(it.front() == it.y_end * it.display.x + x);
    } else {
        assert((y + 1) * it.display.x <= it.y_end * it.display.x) by (nonlinear_arith)
            requires
                y + 1 <= it.y_end,
                it.display.x >= 1,
        ;
        assert((y + 1) * it.display.x == y * it.display.x + it.display.x) by (nonlinear_arith);
    }
}

/// A state whose back end is the very first pixel has its front at zero.
proof fn lemma_zero_front(it: DisplayIter)
    requires
        it.wf(),
        !(it.y_start == it.y_end && it.x_start > it.x_end),
        it.y_end == 0,
        it.x_end == 0,
    ensures
        it.front() == 0,
        it.x_start == 0,
        it.y_start == 0,
{
    if it.y_start > 0 {
        assert(it.y_start * it.display.x >= 1 * it.display.x) by (nonlinear_arith)
            requires
                it.y_start >= 1,
                it.display.x >= 1,
        ;
        assert(it.x_start == 0);
        assert(it.y_start == 0);
    } else {
        assert(it.x_start <= it.x_end);
    }
}

/// When the back is about to yield, the state is nonempty.
proof fn lemma_back_yield_nonempty(it: DisplayIter)
    requires
        it.wf(),
        !(it.y_start == it.y_end && it.x_start > it.x_end),
        it.y_end >= it.y_start || it.x_end == 0,
        it.x_end == 0 ==> it.y_end >= 1,
    ensures
        it.front() < it.back_end(),
        it@.len() > 0,
{
    if it.y_start == it.y_end {
        assert(it.x_start <= it.x_end);
    } else if it.y_start < it.y_end {
        assert((it.y_start + 1) * it.display.x <= it.y_end * it.display.x) by (nonlinear_arith)
            requires
                it.y_start + 1 <= it.y_end,
                it.display.x >= 1,
        ;
        assert((it.y_start + 1) * it.display.x == it.y_start * it.display.x + it.display.x)
            by (nonlinear_arith);
    } else {
        assert(it.y_start * it.display.x >= (it.y_end + 1) * it.display.x) by (nonlinear_arith)
            requires
                it.y_start >= it.y_end + 1,
                it.display.x >= 1,
        ;
        assert((it.y_end + 1) * it.display.x == it.y_end * it.display.x + it.display.x)
            by (nonlinear_arith);
        assert(it.x_start == 0);
        assert(it.y_start == 0);
        assert(false);
    }
}

} // verus!
