//! The parse tool's tally: two raw documents tracked line by line, and the
//! one-sided difference that subtracts the second from the first.

use vstd::prelude::*;

use crate::cdif::differ_track;
use crate::cdif::doc_distinct;
use crate::cdif::doc_qty_i32;
use crate::cdif::find_entry;
use crate::cdif::line_id;
use crate::cdif::push_entry;
use crate::cdif::Line;
use crate::cdif::LineV;
use crate::cdifdiff::track_in;
use vstd::wrapping::i32_specs;

verus! {

/// The one-sided difference: for every identity of the first document, its
/// quantity minus the second document's, kept when nonzero, in the first
/// document's order.  Identities only the second document has are ignored.
pub open spec fn a_minus(a: Seq<LineV>, b: Seq<LineV>) -> Seq<LineV>
    decreases a.len(),
{
    if a.len() == 0 {
        Seq::empty()
    } else {
        let rest = a_minus(a.drop_last(), b);
        let e = a.last();
        let q = i32_specs::wrapping_sub(e.quantity, doc_qty_i32(b, line_id(e)));
        if q == 0 {
            rest
        } else {
            rest.push(LineV { quantity: q, ..e })
        }
    }
}

/// Tracks two documents side by side and subtracts the second from the
/// first.
pub struct Differ {
    a: Vec<Line>,
    b: Vec<Line>,
}

impl View for Differ {
    type V = (Seq<LineV>, Seq<LineV>);

    closed spec fn view(&self) -> (Seq<LineV>, Seq<LineV>) {
        (self.a.deep_view(), self.b.deep_view())
    }
}

impl Differ {
    /// Both tallies keep one entry per identity key.
    pub open spec fn wf(&self) -> bool {
        doc_distinct(self@.0) && doc_distinct(self@.1)
    }

    /// Two empty tallies.
    pub fn new() -> (r: Differ)
        ensures
            r@.0 == Seq::<LineV>::empty(),
            r@.1 == Seq::<LineV>::empty(),
            r.wf(),
    {
        let r = Differ { a: Vec::new(), b: Vec::new() };
        proof {
            assert(r@.0 =~= Seq::<LineV>::empty());
            assert(r@.1 =~= Seq::<LineV>::empty());
        }
        r
    }

    /// Tallies a line of the first document.
    pub fn track_a(&mut self, line: Line)
        requires
            old(self).wf(),
        ensures
            final(self)@.0 == differ_track(old(self)@.0, line@),
            final(self)@.1 == old(self)@.1,
            final(self).wf(),
    {
        track_in(&mut self.a, line);
    }

    /// Tallies a line of the second document.
    pub fn track_b(&mut self, line: Line)
        requires
            old(self).wf(),
        ensures
            final(self)@.0 == old(self)@.0,
            final(self)@.1 == differ_track(old(self)@.1, line@),
            final(self).wf(),
    {
        track_in(&mut self.b, line);
    }

    /// Subtracts the second tally from the first, keeping the nonzero
    /// remainders in the first tally's order.
    pub fn diff(self) -> (r: Vec<Line>)
        requires
            self.wf(),
        ensures
            r.deep_view() == a_minus(self@.0, self@.1),
    {
        let ghost av = self@.0;
        let ghost bv = self@.1;
        let mut out: Vec<Line> = Vec::new();
        proof {
            assert(out.deep_view() =~= Seq::<LineV>::empty());
            assert(av.subrange(0, 0) =~= Seq::<LineV>::empty());
        }
        let mut i: usize = 0;
        while i < self.a.len()
            invariant
                i <= self.a.len(),
                av == self@.0,
                bv == self@.1,
                self.a.deep_view() == av,
                self.b.deep_view() == bv,
                out.deep_view() == a_minus(av.subrange(0, i as int), bv),
            decreases self.a.len() - i,
        {
            let ghost pre = av.subrange(0, i as int);
            let key = self.a[i].id();
            let qb: i32 = match find_entry(&self.b, key.as_str()) {
                Some(j) => self.b[j].quantity,
                None => 0,
            };
            let q = self.a[i].quantity.wrapping_sub(qb);
            proof {
                assert(av.subrange(0, i + 1).drop_last() =~= pre);
                assert(av.subrange(0, i + 1).last() == av[i as int]);
            }
            if q != 0 {
                let dup = self.a[i].duplicate();
                let e = Line { quantity: q, ..dup };
                push_entry(&mut out, e);
            }
            i += 1;
        }
        proof {
            assert(av.subrange(0, av.len() as int) =~= av);
        }
        out
    }
}

} // verus!
