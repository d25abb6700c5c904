//! The standalone diff tool's tally: two raw documents tracked line by
//! line, then the signed patch that turns the first into the second.

use vstd::prelude::*;

use crate::cdif::b_only;
use crate::cdif::diff_first;
use crate::cdif::differ_track;
use crate::cdif::doc_diff;
use crate::cdif::doc_distinct;
use crate::cdif::find_entry;
use crate::cdif::lemma_distinct_push;
use crate::cdif::lemma_distinct_update;
use crate::cdif::push_entry;
use crate::cdif::Line;
use crate::cdif::LineV;

verus! {

/// Folds one line into a raw tally: quantities add on a shared identity,
/// a new identity is appended, and nothing is ever dropped.
pub(crate) fn track_in(map: &mut Vec<Line>, line: Line)
    requires
        doc_distinct(old(map).deep_view()),
    ensures
        final(map).deep_view() == differ_track(old(map).deep_view(), line@),
        doc_distinct(final(map).deep_view()),
{
    let ghost d = map.deep_view();
    let key = line.id();
    match find_entry(map, key.as_str()) {
        Some(i) => {
            let old_line = map.remove(i);
            let q = old_line.quantity.wrapping_add(line.quantity);
            let updated = Line { quantity: q, ..old_line };
            map.insert(i, updated);
            proof {
                let e = LineV { quantity: q, ..d[i as int] };
                let now = map.deep_view();
                assert forall|x: int| 0 <= x < now.len() implies now[x] == d.update(
                    i as int,
                    e,
                )[x] by {
                    assert(now[x] == map@[x].deep_view());
                }
                assert(now =~= d.update(i as int, e));
                lemma_distinct_update(d, i as int, e);
            }
        }
        None => {
            let ghost lv = line@;
            push_entry(map, line);
            proof {
                lemma_distinct_push(d, lv);
            }
        }
    }
}

/// Tracks two documents side by side and computes their diff.
pub struct Differ {
    a: Vec<Line>,
    b: Vec<Line>,
}

impl View for Differ {
    type V = (Seq<LineV>, Seq<LineV>);

    closed spec fn view(&self) -> (Seq<LineV>, Seq<LineV>) {
        (self.a.deep_view(), self.b.deep_view())
    }
}

impl Differ {
    /// Both tallies keep one entry per identity key.
    pub open spec fn wf(&self) -> bool {
        doc_distinct(self@.0) && doc_distinct(self@.1)
    }

    /// Two empty tallies.
    pub fn new() -> (r: Differ)
        ensures
            r@.0 == Seq::<LineV>::empty(),
            r@.1 == Seq::<LineV>::empty(),
            r.wf(),
    {
        let r = Differ { a: Vec::new(), b: Vec::new() };
        proof {
            assert(r@.0 =~= Seq::<LineV>::empty());
            assert(r@.1 =~= Seq::<LineV>::empty());
        }
        r
    }

    /// Tallies a line of the first (base) document.
    pub fn track_a(&mut self, line: Line)
        requires
            old(self).wf(),
        ensures
            final(self)@.0 == differ_track(old(self)@.0, line@),
            final(self)@.1 == old(self)@.1,
            final(self).wf(),
    {
        track_in(&mut self.a, line);
    }

    /// Tallies a line of the second (changed) document.
    pub fn track_b(&mut self, line: Line)
        requires
            old(self).wf(),
        ensures
            final(self)@.0 == old(self)@.0,
            final(self)@.1 == differ_track(old(self)@.1, line@),
            final(self).wf(),
    {
        track_in(&mut self.b, line);
    }

    /// The signed patch turning the first document into the second: for
    /// every identity of the first, the second's quantity minus the
    /// first's, when nonzero; then the second's entries the first lacks.
    pub fn diff(self) -> (r: Vec<Line>)
        requires
            self.wf(),
        ensures
            r.deep_view() == doc_diff(self@.0, self@.1),
    {
        let ghost av = self@.0;
        let ghost bv = self@.1;
        let mut out: Vec<Line> = Vec::new();
        proof {
            assert(out.deep_view() =~= Seq::<LineV>::empty());
            assert(av.subrange(0, 0) =~= Seq::<LineV>::empty());
        }
        let mut i: usize = 0;
        while i < self.a.len()
            invariant
                i <= self.a.len(),
                av == self@.0,
                bv == self@.1,
                self.a.deep_view() == av,
                self.b.deep_view() == bv,
                out.deep_view() == diff_first(av.subrange(0, i as int), bv),
            decreases self.a.len() - i,
        {
            let ghost pre = av.subrange(0, i as int);
            let key = self.a[i].id();
            let qb: i32 = match find_entry(&self.b, key.as_str()) {
                Some(j) => self.b[j].quantity,
                None => 0,
            };
            let q = qb.wrapping_sub(self.a[i].quantity);
            proof {
                assert(av.subrange(0, i + 1).drop_last() =~= pre);
                assert(av.subrange(0, i + 1).last() == av[i as int]);
            }
            if q != 0 {
                let dup = self.a[i].duplicate();
                let e = Line { quantity: q, ..dup };
                push_entry(&mut out, e);
            }
            i += 1;
        }
        proof {
            assert(av.subrange(0, av.len() as int) =~= av);
            assert(bv.subrange(0, 0) =~= Seq::<LineV>::empty());
        }
        let mut i: usize = 0;
        while i < self.b.len()
            invariant
                i <= self.b.len(),
                av == self@.0,
                bv == self@.1,
                self.a.deep_view() == av,
                self.b.deep_view() == bv,
                out.deep_view() == diff_first(av, bv) + b_only(bv.subrange(0, i as int), av),
            decreases self.b.len() - i,
        {
            let ghost pre = bv.subrange(0, i as int);
            let key = self.b[i].id();
            proof {
                assert(bv.subrange(0, i + 1).drop_last() =~= pre);
                assert(bv.subrange(0, i + 1).last() == bv[i as int]);
            }
            match find_entry(&self.a, key.as_str()) {
                Some(_) => {}
                None => {
                    let dup = self.b[i].duplicate();
                    push_entry(&mut out, dup);
                    proof {
                        assert(diff_first(av, bv) + b_only(pre, av).push(bv[i as int]) =~= (
                        diff_first(av, bv) + b_only(pre, av)).push(bv[i as int]));
                    }
                }
            }
            i += 1;
        }
        proof {
            assert(bv.subrange(0, bv.len() as int) =~= bv);
        }
        out
    }
}

} // verus!
