//! The delta document format: signed lines, whole-document aggregation by
//! identity key, and the diff between two aggregated documents.

use vstd::prelude::*;

use crate::parser;
use crate::parser::render_id;
use crate::parser::spec_id_parts;
use crate::parser::u32_to_dec;
use crate::text::push_char;
use crate::text::str_eq;
use vstd::arithmetic::div_mod::lemma_add_mod_noop;
use vstd::arithmetic::div_mod::lemma_mod_multiples_vanish;
use vstd::arithmetic::div_mod::lemma_small_mod;
use vstd::string::StrSliceExecFns;
use vstd::string::StringExecFns;
use vstd::wrapping::i32_specs;
use vstd::wrapping::u32_specs;

verus! {

/// One delta statement with a signed quantity: positive lines credit copies,
/// negative lines (as produced by `diff`) debit them.
pub struct Line {
    pub quantity: i32,
    pub set: String,
    pub oracle: String,
    pub gvars: Vec<String>,
    pub lvars: Vec<(String, String)>,
}

/// The mathematical value of a signed `Line`.
pub ghost struct LineV {
    pub quantity: i32,
    pub set: Seq<char>,
    pub oracle: Seq<char>,
    pub gvars: Seq<Seq<char>>,
    pub lvars: Seq<(Seq<char>, Seq<char>)>,
}

impl View for Line {
    type V = LineV;

    open spec fn view(&self) -> LineV {
        LineV {
            quantity: self.quantity,
            set: self.set@,
            oracle: self.oracle@,
            gvars: self.gvars.deep_view(),
            lvars: self.lvars.deep_view(),
        }
    }
}

impl DeepView for Line {
    type V = LineV;

    open spec fn deep_view(&self) -> LineV {
        self.view()
    }
}

/// The identity key of a line: set and name, plus the rendered variant
/// section when any variant is present.
pub open spec fn line_id(l: LineV) -> Seq<char> {
    spec_id_parts(l.set, l.oracle, l.gvars, l.lvars)
}

/// A 32-bit quantity reinterpreted as signed, the way storing it in an
/// `i32` does.
pub open spec fn as_signed(q: u32) -> i32 {
    if q <= 0x7FFF_FFFF {
        q as i32
    } else {
        (q - 0x1_0000_0000) as i32
    }
}

/// The unsigned parse result, with its quantity reinterpreted as signed.
pub open spec fn to_signed(l: parser::LineV) -> LineV {
    LineV { quantity: as_signed(l.quantity), set: l.set, oracle: l.oracle, gvars: l.gvars, lvars: l.lvars }
}

/// The meaning of one line of text, as a signed line.
pub open spec fn spec_parse_signed(s: Seq<char>) -> Option<LineV> {
    match parser::spec_parse(s) {
        None => None,
        Some(l) => Some(to_signed(l)),
    }
}

/// The decimal rendering of a signed number.
pub open spec fn spec_dec_i32(q: i32) -> Seq<char> {
    if q < 0 {
        seq!['-'] + parser::spec_dec((-(q as int)) as u32)
    } else {
        parser::spec_dec(q as u32)
    }
}

/// Renders a signed number in decimal.
pub fn i32_to_dec(q: i32) -> (r: String)
    ensures
        r@ == spec_dec_i32(q),
{
    if q < 0 {
        let magnitude = (-(q as i64)) as u32;
        let mut s = String::new();
        push_char(&mut s, '-');
        let digits = u32_to_dec(magnitude);
        s.append(digits.as_str());
        proof {
            assert(s@ =~= spec_dec_i32(q));
        }
        s
    } else {
        u32_to_dec(q as u32)
    }
}

impl Line {
    /// The identity key used to group and match lines.
    pub fn id(&self) -> (r: String)
        ensures
            r@ == line_id(self@),
    {
        render_id(self.set.as_str(), self.oracle.as_str(), &self.gvars, &self.lvars)
    }

    /// The canonical re-serialization, `"<quantity>x <identity>"`.
    pub fn as_cdif_string(&self) -> (r: String)
        ensures
            r@ == spec_dec_i32(self.quantity) + seq!['x', ' '] + line_id(self@),
    {
        let mut s = i32_to_dec(self.quantity);
        push_char(&mut s, 'x');
        push_char(&mut s, ' ');
        let id = self.id();
        s.append(id.as_str());
        proof {
            assert(s@ =~= spec_dec_i32(self.quantity) + seq!['x', ' '] + line_id(self@));
        }
        s
    }

    /// Parses one line of text, returning `None` on any syntax error.
    pub fn parse(line: &str) -> (r: Option<Line>)
        ensures
            match r {
                Some(l) => spec_parse_signed(line@) == Some(l@),
                None => spec_parse_signed(line@) is None,
            },
    {
        match parser::parse_line(line) {
            None => None,
            Some(p) => {
                let q: i32 = if p.quantity <= 0x7FFF_FFFF {
                    p.quantity as i32
                } else {
                    ((p.quantity as i64) - 0x1_0000_0000i64) as i32
                };
                Some(Line { quantity: q, set: p.set, oracle: p.oracle, gvars: p.gvars, lvars: p.lvars })
            }
        }
    }

    /// Copies a line, field by field.
    pub fn duplicate(&self) -> (r: Line)
        ensures
            r@ == self@,
    {
        Line {
            quantity: self.quantity,
            set: self.set.clone(),
            oracle: self.oracle.clone(),
            gvars: clone_strings(&self.gvars),
            lvars: clone_pairs(&self.lvars),
        }
    }
}

pub(crate) fn clone_strings(v: &Vec<String>) -> (r: Vec<String>)
    ensures
        r.deep_view() == v.deep_view(),
{
    let r = v.clone();
    proof {
        assert forall|j: int| 0 <= j < v@.len() implies r@[j] == v@[j] by {
            assert(cloned::<String>(v@[j], r@[j]));
        }
        assert(r@ =~= v@);
    }
    r
}

pub(crate) fn clone_pairs(v: &Vec<(String, String)>) -> (r: Vec<(String, String)>)
    ensures
        r.deep_view() == v.deep_view(),
{
    let mut r: Vec<(String, String)> = Vec::new();
    let mut i: usize = 0;
    while i < v.len()
        invariant
            i <= v.len(),
            r@.len() == i,
            r.deep_view() =~= v.deep_view().subrange(0, i as int),
        decreases v.len() - i,
    {
        let ghost pre = r.deep_view();
        let ghost oldv = r@;
        let a = v[i].0.clone();
        let b = v[i].1.clone();
        r.push((a, b));
        proof {
            assert forall|j: int| 0 <= j < r.deep_view().len() implies r.deep_view()[j]
                == v.deep_view().subrange(0, i + 1)[j] by {
                assert(r.deep_view()[j] == r@[j].deep_view());
                if j < i {
                    assert(r@[j] == oldv[j]);
                    assert(pre[j] == oldv[j].deep_view());
                } else {
                    assert(r@[j] == (a, b));
                    assert((a, b).deep_view() == v@[i as int].deep_view());
                }
            }
            assert(r.deep_view() =~= v.deep_view().subrange(0, i + 1));
        }
        i += 1;
    }
    proof {
        assert(v.deep_view().subrange(0, v.len() as int) =~= v.deep_view());
    }
    r
}

/// First index of an entry with identity `k`, or -1.
pub open spec fn doc_index(d: Seq<LineV>, k: Seq<char>) -> int
    decreases d.len(),
{
    if d.len() == 0 {
        -1
    } else if line_id(d[0]) == k {
        0
    } else {
        let r = doc_index(d.drop_first(), k);
        if r < 0 {
            -1
        } else {
            r + 1
        }
    }
}

/// Whether a document holds an entry with identity `k`.
pub open spec fn doc_has(d: Seq<LineV>, k: Seq<char>) -> bool {
    doc_index(d, k) >= 0
}

/// The aggregated quantity stored for identity `k`, or 0.
pub open spec fn doc_qty(d: Seq<LineV>, k: Seq<char>) -> int {
    if doc_has(d, k) {
        d[doc_index(d, k)].quantity as int
    } else {
        0
    }
}

/// Every entry carries a different identity key.
pub open spec fn doc_distinct(d: Seq<LineV>) -> bool {
    forall|i: int, j: int|
        0 <= i < j < d.len() ==> line_id(#[trigger] d[i]) != line_id(#[trigger] d[j])
}

/// The plain sum of the quantities in a document.
pub open spec fn qsum(d: Seq<LineV>) -> int
    decreases d.len(),
{
    if d.len() == 0 {
        0
    } else {
        qsum(d.drop_last()) + d.last().quantity
    }
}

/// Folding one line into a raw tally of lines by identity key, the way the
/// standalone diff tools do it: quantities add, nothing is dropped, a new
/// identity is appended.
pub open spec fn differ_track(d: Seq<LineV>, l: LineV) -> Seq<LineV> {
    let i = doc_index(d, line_id(l));
    if i < 0 {
        d.push(l)
    } else {
        d.update(i, LineV { quantity: i32_specs::wrapping_add(d[i].quantity, l.quantity), ..d[i] })
    }
}

/// Folding one parsed line into an aggregated document: a zero-quantity
/// line is a no-op; a known identity has the quantity added (dropping the
/// entry if the sum is exactly zero); a new identity is appended.
pub open spec fn doc_track(d: Seq<LineV>, l: LineV) -> Seq<LineV> {
    if l.quantity == 0 {
        d
    } else {
        let i = doc_index(d, line_id(l));
        if i < 0 {
            d.push(l)
        } else {
            let q = i32_specs::wrapping_add(d[i].quantity, l.quantity);
            if q == 0 {
                d.remove(i)
            } else {
                d.update(i, LineV { quantity: q, ..d[i] })
            }
        }
    }
}

pub proof fn lemma_doc_index_range(d: Seq<LineV>, k: Seq<char>)
    ensures
        -1 <= doc_index(d, k) < d.len(),
        doc_index(d, k) >= 0 ==> line_id(d[doc_index(d, k)]) == k,
        doc_index(d, k) < 0 ==> forall|j: int| 0 <= j < d.len() ==> line_id(#[trigger] d[j]) != k,
    decreases d.len(),
{
    if d.len() > 0 && line_id(d[0]) != k {
        lemma_doc_index_range(d.drop_first(), k);
        assert(forall|j: int|
            1 <= j < d.len() ==> #[trigger] d[j] == d.drop_first()[j - 1]);
    }
}

pub proof fn lemma_doc_index_from_scan(d: Seq<LineV>, k: Seq<char>, i: int)
    requires
        0 <= i <= d.len(),
        forall|j: int| 0 <= j < i ==> line_id(#[trigger] d[j]) != k,
        i < d.len() ==> line_id(d[i]) == k,
    ensures
        i < d.len() ==> doc_index(d, k) == i,
        i == d.len() ==> doc_index(d, k) == -1,
    decreases d.len(),
{
    if d.len() > 0 {
        if line_id(d[0]) == k {
        } else {
            assert(forall|j: int|
                0 <= j < d.len() - 1 ==> #[trigger] d.drop_first()[j] == d[j + 1]);
            lemma_doc_index_from_scan(d.drop_first(), k, i - 1);
        }
    }
}

pub(crate) proof fn lemma_distinct_push(d: Seq<LineV>, l: LineV)
    requires
        doc_distinct(d),
        !doc_has(d, line_id(l)),
    ensures
        doc_distinct(d.push(l)),
{
    lemma_doc_index_range(d, line_id(l));
    assert forall|i: int, j: int| 0 <= i < j < d.push(l).len() implies line_id(
        #[trigger] d.push(l)[i],
    ) != line_id(#[trigger] d.push(l)[j]) by {
        if j < d.len() {
            assert(d.push(l)[i] == d[i]);
            assert(d.push(l)[j] == d[j]);
        } else {
            assert(d.push(l)[i] == d[i]);
            assert(d.push(l)[j] == l);
        }
    }
}

proof fn lemma_distinct_remove(d: Seq<LineV>, i: int)
    requires
        doc_distinct(d),
        0 <= i < d.len(),
    ensures
        doc_distinct(d.remove(i)),
{
    assert forall|x: int, y: int| 0 <= x < y < d.remove(i).len() implies line_id(
        #[trigger] d.remove(i)[x],
    ) != line_id(#[trigger] d.remove(i)[y]) by {
        let x0 = if x < i { x } else { x + 1 };
        let y0 = if y < i { y } else { y + 1 };
        assert(d.remove(i)[x] == d[x0]);
        assert(d.remove(i)[y] == d[y0]);
    }
}

pub(crate) proof fn lemma_distinct_update(d: Seq<LineV>, i: int, e: LineV)
    requires
        doc_distinct(d),
        0 <= i < d.len(),
        line_id(e) == line_id(d[i]),
    ensures
        doc_distinct(d.update(i, e)),
{
    assert forall|x: int, y: int| 0 <= x < y < d.update(i, e).len() implies line_id(
        #[trigger] d.update(i, e)[x],
    ) != line_id(#[trigger] d.update(i, e)[y]) by {
        assert(line_id(d.update(i, e)[x]) == line_id(d[x]));
        assert(line_id(d.update(i, e)[y]) == line_id(d[y]));
    }
}

/// Scans for the entry whose identity key equals `key`.
pub(crate) fn find_entry(lines: &Vec<Line>, key: &str) -> (r: Option<usize>)
    ensures
        match r {
            Some(i) => i < lines.deep_view().len() && doc_index(lines.deep_view(), key@) == i,
            None => doc_index(lines.deep_view(), key@) == -1,
        },
{
    let mut i: usize = 0;
    while i < lines.len()
        invariant
            i <= lines.len(),
            forall|j: int| 0 <= j < i ==> line_id(#[trigger] lines.deep_view()[j]) != key@,
        decreases lines.len() - i,
    {
        let id = lines[i].id();
        if str_eq(id.as_str(), key) {
            proof {
                lemma_doc_index_from_scan(lines.deep_view(), key@, i as int);
            }
            return Some(i);
        }
        i += 1;
    }
    proof {
        lemma_doc_index_from_scan(lines.deep_view(), key@, lines.len() as int);
    }
    None
}

/// An aggregated document: entries with pairwise-distinct identity keys, in
/// first-appearance order.
pub struct File {
    lines: Vec<Line>,
}

impl View for File {
    type V = Seq<LineV>;

    closed spec fn view(&self) -> Seq<LineV> {
        self.lines.deep_view()
    }
}

impl File {
    /// Structural invariant: no two entries share an identity key.
    pub open spec fn wf(&self) -> bool {
        doc_distinct(self@)
    }

    /// The empty document.
    pub fn blank() -> (r: File)
        ensures
            r@ =~= Seq::<LineV>::empty(),
            r.wf(),
    {
        let r = File { lines: Vec::new() };
        proof {
            assert(r@ =~= Seq::<LineV>::empty());
        }
        r
    }

    /// Read access to the aggregated entries, in first-appearance order.
    pub fn entries(&self) -> (r: &Vec<Line>)
        ensures
            r.deep_view() == self@,
    {
        &self.lines
    }

    /// The entry stored for an identity key, if any.
    pub fn get(&self, id: &str) -> (r: Option<&Line>)
        ensures
            match r {
                Some(l) => doc_has(self@, id@) && l@ == self@[doc_index(self@, id@)],
                None => !doc_has(self@, id@),
            },
    {
        match find_entry(&self.lines, id) {
            Some(i) => Some(&self.lines[i]),
            None => None,
        }
    }

    /// Total quantity and unique-identity count: the sum of all stored
    /// quantities and the number of entries, both at the 32-bit width the
    /// counters are reported at.
    pub fn count(&self) -> (r: (u32, u32))
        ensures
            r.0 as int == qsum(self@) % 0x1_0000_0000,
            r.1 as int == self@.len() % 0x1_0000_0000,
    {
        let ghost d = self@;
        let mut total: u32 = 0;
        let mut unique: u32 = 0;
        let mut i: usize = 0;
        proof {
            assert(d.subrange(0, 0) =~= Seq::<LineV>::empty());
        }
        while i < self.lines.len()
            invariant
                i <= self.lines.len(),
                d == self@,
                self.lines.deep_view() == d,
                total as int == qsum(d.subrange(0, i as int)) % 0x1_0000_0000,
                unique as int == (i as int) % 0x1_0000_0000,
            decreases self.lines.len() - i,
        {
            let q = self.lines[i].quantity;
            let qc: u32 = if q >= 0 {
                q as u32
            } else {
                ((q as i64) + 0x1_0000_0000i64) as u32
            };
            proof {
                let m = 0x1_0000_0000;
                let pre = d.subrange(0, i as int);
                let now = d.subrange(0, i + 1);
                assert(now.drop_last() =~= pre);
                assert(now.last() == d[i as int]);
                if q >= 0 {
                    lemma_small_mod(q as nat, m as nat);
                } else {
                    lemma_mod_multiples_vanish(1, q as int, m);
                    lemma_small_mod((q + m) as nat, m as nat);
                }
                assert(qc as int == (q as int) % m);
                lemma_wrap_add_is_mod(total, qc);
                lemma_add_mod_noop(qsum(pre), q as int, m);
                lemma_small_mod(total as nat, m as nat);
                lemma_small_mod(qc as nat, m as nat);
                lemma_wrap_add_is_mod(unique, 1);
                lemma_add_mod_noop(i as int, 1, m);
                lemma_small_mod(unique as nat, m as nat);
                lemma_small_mod(1nat, m as nat);
            }
            total = total.wrapping_add(qc);
            unique = unique.wrapping_add(1);
            i += 1;
        }
        proof {
            assert(d.subrange(0, d.len() as int) =~= d);
        }
        (total, unique)
    }

    /// Folds one parsed line into the document, summing quantities that
    /// share an identity key and dropping an entry whose sum reaches zero.
    pub fn track(&mut self, line: Line)
        requires
            old(self).wf(),
        ensures
            final(self)@ == doc_track(old(self)@, line@),
            final(self).wf(),
    {
        if line.quantity != 0 {
            let ghost d = self@;
            let key = line.id();
            match find_entry(&self.lines, key.as_str()) {
                Some(i) => {
                    let old_line = self.lines.remove(i);
                    let q = old_line.quantity.wrapping_add(line.quantity);
                    if q == 0 {
                        proof {
                            assert(self@ =~= d.remove(i as int));
                            lemma_distinct_remove(d, i as int);
                        }
                    } else {
                        let updated = Line { quantity: q, ..old_line };
                        self.lines.insert(i, updated);
                        proof {
                            let e = LineV { quantity: q, ..d[i as int] };
                            assert(self@ =~= d.update(i as int, e));
                            lemma_distinct_update(d, i as int, e);
                        }
                    }
                }
                None => {
                    self.lines.push(line);
                    proof {
                        assert(self@ =~= d.push(self@.last()));
                        lemma_distinct_push(d, self@.last());
                    }
                }
            }
        }
    }
}

/// The quantity stored for identity `k`, or 0, at its stored width.
pub open spec fn doc_qty_i32(d: Seq<LineV>, k: Seq<char>) -> i32 {
    if doc_has(d, k) {
        d[doc_index(d, k)].quantity
    } else {
        0
    }
}

/// The part of the diff drawn from `a`'s entries, in `a`'s order: for each,
/// the quantity in `b` (0 when absent) minus the quantity in `a`, kept only
/// when nonzero, carrying `a`'s metadata.
pub open spec fn diff_first(a: Seq<LineV>, b: Seq<LineV>) -> Seq<LineV>
    decreases a.len(),
{
    if a.len() == 0 {
        Seq::empty()
    } else {
        let rest = diff_first(a.drop_last(), b);
        let e = a.last();
        let q = i32_specs::wrapping_sub(doc_qty_i32(b, line_id(e)), e.quantity);
        if q == 0 {
            rest
        } else {
            rest.push(LineV { quantity: q, ..e })
        }
    }
}

/// The entries of `b` whose identity does not appear in `a`, unchanged and
/// in `b`'s order.
pub open spec fn b_only(b: Seq<LineV>, a: Seq<LineV>) -> Seq<LineV>
    decreases b.len(),
{
    if b.len() == 0 {
        Seq::empty()
    } else {
        let rest = b_only(b.drop_last(), a);
        if doc_has(a, line_id(b.last())) {
            rest
        } else {
            rest.push(b.last())
        }
    }
}

/// The minimal patch turning `a`'s holdings into `b`'s.
pub open spec fn doc_diff(a: Seq<LineV>, b: Seq<LineV>) -> Seq<LineV> {
    diff_first(a, b) + b_only(b, a)
}

/// Any entry's own identity is found in its document.
pub proof fn lemma_doc_has_entry(d: Seq<LineV>, j: int)
    requires
        0 <= j < d.len(),
    ensures
        doc_has(d, line_id(d[j])),
{
    lemma_doc_index_range(d, line_id(d[j]));
}

pub(crate) proof fn lemma_doc_has_exists(d: Seq<LineV>, k: Seq<char>)
    ensures
        doc_has(d, k) <==> (exists|j: int| 0 <= j < d.len() && line_id(#[trigger] d[j]) == k),
{
    lemma_doc_index_range(d, k);
    if doc_has(d, k) {
        assert(line_id(d[doc_index(d, k)]) == k);
    }
}

proof fn lemma_doc_has_push(d: Seq<LineV>, x: LineV, k: Seq<char>)
    ensures
        doc_has(d.push(x), k) <==> (doc_has(d, k) || line_id(x) == k),
{
    lemma_doc_has_exists(d.push(x), k);
    lemma_doc_has_exists(d, k);
    if doc_has(d, k) {
        let j = choose|j: int| 0 <= j < d.len() && line_id(#[trigger] d[j]) == k;
        assert(d.push(x)[j] == d[j]);
    }
    if line_id(x) == k {
        assert(d.push(x)[d.len() as int] == x);
    }
    if doc_has(d.push(x), k) {
        let j = choose|j: int| 0 <= j < d.push(x).len() && line_id(#[trigger] d.push(x)[j]) == k;
        if j < d.len() {
            assert(d[j] == d.push(x)[j]);
        } else {
            assert(d.push(x)[j] == x);
        }
    }
}

proof fn lemma_diff_first_has(a: Seq<LineV>, b: Seq<LineV>, k: Seq<char>)
    requires
        doc_has(diff_first(a, b), k),
    ensures
        doc_has(a, k),
    decreases a.len(),
{
    if a.len() > 0 {
        let rest = diff_first(a.drop_last(), b);
        let e = a.last();
        let q = i32_specs::wrapping_sub(doc_qty_i32(b, line_id(e)), e.quantity);
        if q == 0 {
            lemma_diff_first_has(a.drop_last(), b, k);
            lemma_drop_last_has(a, k);
        } else {
            lemma_doc_has_push(rest, LineV { quantity: q, ..e }, k);
            if line_id(LineV { quantity: q, ..e }) == k {
                lemma_doc_has_entry(a, a.len() - 1);
            } else {
                lemma_diff_first_has(a.drop_last(), b, k);
                lemma_drop_last_has(a, k);
            }
        }
    }
}

proof fn lemma_drop_last_has(d: Seq<LineV>, k: Seq<char>)
    requires
        d.len() > 0,
        doc_has(d.drop_last(), k),
    ensures
        doc_has(d, k),
{
    lemma_doc_index_range(d.drop_last(), k);
    let i = doc_index(d.drop_last(), k);
    assert(d[i] == d.drop_last()[i]);
    lemma_doc_has_entry(d, i);
}

proof fn lemma_diff_first_distinct(a: Seq<LineV>, b: Seq<LineV>)
    requires
        doc_distinct(a),
    ensures
        doc_distinct(diff_first(a, b)),
    decreases a.len(),
{
    if a.len() > 0 {
        assert(doc_distinct(a.drop_last())) by {
            assert(forall|i: int|
                0 <= i < a.len() - 1 ==> a.drop_last()[i] == #[trigger] a[i]);
        }
        lemma_diff_first_distinct(a.drop_last(), b);
        let rest = diff_first(a.drop_last(), b);
        let e = a.last();
        let q = i32_specs::wrapping_sub(doc_qty_i32(b, line_id(e)), e.quantity);
        if q != 0 {
            let en = LineV { quantity: q, ..e };
            assert(!doc_has(a.drop_last(), line_id(en))) by {
                lemma_doc_index_range(a.drop_last(), line_id(en));
                if doc_has(a.drop_last(), line_id(en)) {
                    let i = doc_index(a.drop_last(), line_id(en));
                    assert(a[i] == a.drop_last()[i]);
                    assert(line_id(a[i]) == line_id(a[a.len() - 1]));
                }
            }
            if doc_has(rest, line_id(en)) {
                lemma_diff_first_has(a.drop_last(), b, line_id(en));
            }
            lemma_distinct_push(rest, en);
        }
    }
}

proof fn lemma_b_only_has(b: Seq<LineV>, a: Seq<LineV>, k: Seq<char>)
    requires
        doc_has(b_only(b, a), k),
    ensures
        doc_has(b, k),
        !doc_has(a, k),
    decreases b.len(),
{
    if b.len() > 0 {
        let rest = b_only(b.drop_last(), a);
        let e = b.last();
        if doc_has(a, line_id(e)) {
            lemma_b_only_has(b.drop_last(), a, k);
            lemma_drop_last_has(b, k);
        } else {
            lemma_doc_has_push(rest, e, k);
            if line_id(e) == k {
                lemma_doc_has_entry(b, b.len() - 1);
            } else {
                lemma_b_only_has(b.drop_last(), a, k);
                lemma_drop_last_has(b, k);
            }
        }
    }
}

proof fn lemma_b_only_distinct(b: Seq<LineV>, a: Seq<LineV>)
    requires
        doc_distinct(b),
    ensures
        doc_distinct(b_only(b, a)),
    decreases b.len(),
{
    if b.len() > 0 {
        assert(doc_distinct(b.drop_last())) by {
            assert(forall|i: int|
                0 <= i < b.len() - 1 ==> b.drop_last()[i] == #[trigger] b[i]);
        }
        lemma_b_only_distinct(b.drop_last(), a);
        let rest = b_only(b.drop_last(), a);
        let e = b.last();
        if !doc_has(a, line_id(e)) {
            assert(!doc_has(b.drop_last(), line_id(e))) by {
                lemma_doc_index_range(b.drop_last(), line_id(e));
                if doc_has(b.drop_last(), line_id(e)) {
                    let i = doc_index(b.drop_last(), line_id(e));
                    assert(b[i] == b.drop_last()[i]);
                    assert(line_id(b[i]) == line_id(b[b.len() - 1]));
                }
            }
            if doc_has(rest, line_id(e)) {
                lemma_b_only_has(b.drop_last(), a, line_id(e));
            }
            lemma_distinct_push(rest, e);
        }
    }
}

/// A diff of two well-formed documents is itself well-formed.
pub proof fn lemma_doc_diff_distinct(a: Seq<LineV>, b: Seq<LineV>)
    requires
        doc_distinct(a),
        doc_distinct(b),
    ensures
        doc_distinct(doc_diff(a, b)),
{
    lemma_diff_first_distinct(a, b);
    lemma_b_only_distinct(b, a);
    let x = diff_first(a, b);
    let y = b_only(b, a);
    let d = doc_diff(a, b);
    assert forall|i: int, j: int| 0 <= i < j < d.len() implies line_id(#[trigger] d[i])
        != line_id(#[trigger] d[j]) by {
        if j < x.len() {
            assert(d[i] == x[i] && d[j] == x[j]);
        } else if i >= x.len() {
            assert(d[i] == y[i - x.len()] && d[j] == y[j - x.len()]);
        } else {
            assert(d[i] == x[i] && d[j] == y[j - x.len()]);
            if line_id(d[i]) == line_id(d[j]) {
                lemma_doc_has_entry(x, i);
                lemma_diff_first_has(a, b, line_id(x[i]));
                lemma_doc_has_entry(y, j - x.len());
                lemma_b_only_has(b, a, line_id(y[j - x.len()]));
            }
        }
    }
}

/// Appends one entry, at the level of the document model.
pub(crate) fn push_entry(out: &mut Vec<Line>, l: Line)
    ensures
        final(out).deep_view() == old(out).deep_view().push(l@),
{
    let ghost pre = out.deep_view();
    let ghost oldv = out@;
    let ghost lv = l@;
    out.push(l);
    proof {
        assert forall|j: int| 0 <= j < out.deep_view().len() implies out.deep_view()[j] == pre.push(
            lv,
        )[j] by {
            assert(out.deep_view()[j] == out@[j].deep_view());
            if j < oldv.len() {
                assert(out@[j] == oldv[j]);
                assert(pre[j] == oldv[j].deep_view());
            }
        }
        assert(out.deep_view() =~= pre.push(lv));
    }
}

impl File {
    /// The minimal patch turning `a`'s holdings into `b`'s: for every
    /// identity in `a`, the difference `b - a` when nonzero, with `a`'s
    /// metadata; then every entry of `b` whose identity `a` lacks.
    pub fn diff(a: &File, b: &File) -> (r: File)
        requires
            a.wf(),
            b.wf(),
        ensures
            r@ == doc_diff(a@, b@),
            r.wf(),
    {
        let mut out: Vec<Line> = Vec::new();
        proof {
            assert(out.deep_view() =~= Seq::<LineV>::empty());
            assert(a@.subrange(0, 0) =~= Seq::<LineV>::empty());
        }
        let mut i: usize = 0;
        while i < a.lines.len()
            invariant
                i <= a.lines.len(),
                a.lines.deep_view() == a@,
                b.lines.deep_view() == b@,
                out.deep_view() == diff_first(a@.subrange(0, i as int), b@),
            decreases a.lines.len() - i,
        {
            let ghost pre = a@.subrange(0, i as int);
            let key = a.lines[i].id();
            let qb: i32 = match find_entry(&b.lines, key.as_str()) {
                Some(j) => b.lines[j].quantity,
                None => 0,
            };
            let q = qb.wrapping_sub(a.lines[i].quantity);
            proof {
                assert(a@.subrange(0, i + 1).drop_last() =~= pre);
                assert(a@.subrange(0, i + 1).last() == a@[i as int]);
            }
            if q != 0 {
                let dup = a.lines[i].duplicate();
                let e = Line { quantity: q, ..dup };
                push_entry(&mut out, e);
            }
            i += 1;
        }
        proof {
            assert(a@.subrange(0, a@.len() as int) =~= a@);
            assert(b@.subrange(0, 0) =~= Seq::<LineV>::empty());
        }
        let mut i: usize = 0;
        while i < b.lines.len()
            invariant
                i <= b.lines.len(),
                a.lines.deep_view() == a@,
                b.lines.deep_view() == b@,
                out.deep_view() == diff_first(a@, b@) + b_only(b@.subrange(0, i as int), a@),
            decreases b.lines.len() - i,
        {
            let ghost pre = b@.subrange(0, i as int);
            let key = b.lines[i].id();
            proof {
                assert(b@.subrange(0, i + 1).drop_last() =~= pre);
                assert(b@.subrange(0, i + 1).last() == b@[i as int]);
            }
            match find_entry(&a.lines, key.as_str()) {
                Some(_) => {}
                None => {
                    let dup = b.lines[i].duplicate();
                    push_entry(&mut out, dup);
                    proof {
                        assert(diff_first(a@, b@) + b_only(pre, a@).push(b@[i as int]) =~= (
                        diff_first(a@, b@) + b_only(pre, a@)).push(b@[i as int]));
                    }
                }
            }
            i += 1;
        }
        proof {
            assert(b@.subrange(0, b@.len() as int) =~= b@);
            lemma_doc_diff_distinct(a@, b@);
        }
        File { lines: out }
    }
}

/// Position of the first newline, or the length when there is none.
pub open spec fn index_of_nl(s: Seq<char>) -> nat
    decreases s.len(),
{
    if s.len() == 0 {
        0
    } else if s[0] == '\n' {
        0
    } else {
        1 + index_of_nl(s.drop_first())
    }
}

/// What a buffered line reader yields for one newline-terminated segment:
/// the text before the newline, minus one trailing carriage return.
pub open spec fn strip_cr(t: Seq<char>) -> Seq<char> {
    if t.len() > 0 && t.last() == '\r' {
        t.drop_last()
    } else {
        t
    }
}

/// The lines of a text, as a buffered line reader would hand them out: the
/// text split at newlines, each newline-terminated segment stripped of the
/// newline and one carriage return; a final unterminated segment kept
/// verbatim; no empty final line after a trailing newline.
pub open spec fn split_lines(s: Seq<char>) -> Seq<Seq<char>>
    decreases s.len(),
{
    if s.len() == 0 {
        Seq::empty()
    } else {
        let i = index_of_nl(s) as int;
        if i >= s.len() {
            seq![s]
        } else {
            seq![strip_cr(s.subrange(0, i))] + split_lines(s.subrange(i + 1, s.len() as int))
        }
    }
}

pub proof fn lemma_index_of_nl(s: Seq<char>)
    ensures
        index_of_nl(s) <= s.len(),
        index_of_nl(s) < s.len() ==> s[index_of_nl(s) as int] == '\n',
        forall|j: int| 0 <= j < index_of_nl(s) ==> s[j] != '\n',
    decreases s.len(),
{
    if s.len() > 0 && s[0] != '\n' {
        lemma_index_of_nl(s.drop_first());
        assert(forall|j: int|
            0 <= j < s.len() - 1 ==> #[trigger] s.drop_first()[j] == s[j + 1]);
        assert forall|j: int| 0 <= j < index_of_nl(s) implies s[j] != '\n' by {
            if j > 0 {
                assert(s.drop_first()[j - 1] == s[j]);
            }
        }
    }
}

proof fn lemma_index_of_nl_from_scan(s: Seq<char>, i: int)
    requires
        0 <= i <= s.len(),
        forall|j: int| 0 <= j < i ==> s[j] != '\n',
        i < s.len() ==> s[i] == '\n',
    ensures
        index_of_nl(s) == i,
    decreases s.len(),
{
    if s.len() > 0 && s[0] != '\n' {
        assert(forall|j: int|
            0 <= j < s.len() - 1 ==> #[trigger] s.drop_first()[j] == s[j + 1]);
        lemma_index_of_nl_from_scan(s.drop_first(), i - 1);
    }
}

/// Splits a text into its lines, the way a buffered line reader does.
pub fn split_into_lines(s: &str) -> (r: Vec<String>)
    ensures
        r.deep_view() == split_lines(s@),
{
    let n = s.unicode_len();
    let mut out: Vec<String> = Vec::new();
    let mut start: usize = 0;
    proof {
        assert(out.deep_view() =~= Seq::<Seq<char>>::empty());
        assert(s@.subrange(0, n as int) =~= s@);
    }
    while start < n
        invariant
            start <= n,
            n == s@.len(),
            split_lines(s@) == out.deep_view() + split_lines(s@.subrange(start as int, n as int)),
        decreases n - start,
    {
        let ghost t = s@.subrange(start as int, n as int);
        let mut j: usize = start;
        while j < n && s.get_char(j) != '\n'
            invariant
                start <= j <= n,
                n == s@.len(),
                forall|k: int| start <= k < j ==> s@[k] != '\n',
            decreases n - j,
        {
            j += 1;
        }
        proof {
            assert(forall|k: int| 0 <= k < t.len() ==> #[trigger] t[k] == s@[start + k]);
            lemma_index_of_nl_from_scan(t, j - start);
        }
        let seg: &str;
        let ghost target: Seq<char>;
        if j < n {
            // newline-terminated: strip it, and one carriage return
            if j > start && s.get_char(j - 1) == '\r' {
                seg = s.substring_char(start, j - 1);
            } else {
                seg = s.substring_char(start, j);
            }
            proof {
                target = strip_cr(t.subrange(0, (j - start) as int));
                assert(t.subrange(0, (j - start) as int) =~= s@.subrange(start as int, j as int));
                if j > start && s@[j - 1] == '\r' {
                    assert(s@.subrange(start as int, j as int).drop_last() =~= s@.subrange(
                        start as int,
                        j - 1,
                    ));
                    assert(seg@ == target);
                } else {
                    assert(seg@ == target);
                }
            }
        } else {
            // final segment without a newline: kept verbatim
            seg = s.substring_char(start, n);
            proof {
                target = t;
                assert(s@.subrange(start as int, n as int) == t);
            }
        }
        let line = String::from_str(seg);
        let ghost preout = out.deep_view();
        let ghost oldv = out@;
        out.push(line);
        proof {
            assert forall|x: int| 0 <= x < out.deep_view().len() implies out.deep_view()[x]
                == preout.push(target)[x] by {
                assert(out.deep_view()[x] == out@[x].deep_view());
                if x < oldv.len() {
                    assert(out@[x] == oldv[x]);
                    assert(preout[x] == oldv[x].deep_view());
                }
            }
            assert(out.deep_view() =~= preout.push(target));
            if j < n {
                assert(split_lines(t) == seq![target] + split_lines(t.subrange(
                    (j - start) + 1,
                    t.len() as int,
                )));
                assert(t.subrange((j - start) + 1, t.len() as int) =~= s@.subrange(
                    j + 1,
                    n as int,
                ));
                assert(preout.push(target) =~= preout + seq![target]);
                assert(out.deep_view() + split_lines(s@.subrange(j + 1, n as int)) =~= preout
                    + split_lines(s@.subrange(start as int, n as int)));
            } else {
                assert(split_lines(t) == seq![t]);
                assert(preout.push(target) =~= preout + seq![target]);
                assert(s@.subrange(n as int, n as int) =~= Seq::<char>::empty());
                assert(out.deep_view() + split_lines(s@.subrange(n as int, n as int)) =~= preout
                    + split_lines(s@.subrange(start as int, n as int)));
            }
        }
        if j < n {
            start = j + 1;
        } else {
            start = n;
        }
    }
    proof {
        assert(s@.subrange(start as int, n as int) =~= Seq::<char>::empty());
        assert(out.deep_view() + Seq::<Seq<char>>::empty() =~= out.deep_view());
        assert(out.deep_view() =~= split_lines(s@));
    }
    out
}

/// A syntax error in one line of a document; lines are counted from zero.
#[derive(Debug)]
pub struct SyntaxError {
    pub line: usize,
}

/// Reading a whole document: every line parsed and folded in, in order;
/// one bad line voids the whole read.
pub open spec fn parse_doc(ls: Seq<Seq<char>>) -> Option<Seq<LineV>>
    decreases ls.len(),
{
    if ls.len() == 0 {
        Some(Seq::empty())
    } else {
        match parse_doc(ls.drop_last()) {
            None => None,
            Some(d) => match spec_parse_signed(ls.last()) {
                None => None,
                Some(l) => Some(doc_track(d, l)),
            },
        }
    }
}

pub proof fn lemma_parse_doc_none(ls: Seq<Seq<char>>, i: int)
    requires
        0 <= i < ls.len(),
        spec_parse_signed(ls[i]) is None,
    ensures
        parse_doc(ls) is None,
    decreases ls.len(),
{
    if i < ls.len() - 1 {
        assert(ls.drop_last()[i] == ls[i]);
        lemma_parse_doc_none(ls.drop_last(), i);
    }
}

impl File {
    /// Parses a whole document from text, aggregating as it goes; any
    /// single-line syntax error aborts the whole read, reporting the first
    /// offending line.
    #[verifier::rlimit(50)]
    pub fn from_string(s: &str) -> (r: Result<File, SyntaxError>)
        ensures
            match r {
                Ok(f) => f.wf() && parse_doc(split_lines(s@)) == Some(f@),
                Err(e) => {
                    let ls = split_lines(s@);
                    &&& parse_doc(ls) is None
                    &&& e.line < ls.len()
                    &&& spec_parse_signed(ls[e.line as int]) is None
                    &&& forall|j: int|
                        0 <= j < e.line ==> spec_parse_signed(#[trigger] ls[j]) is Some
                },
            },
    {
        let ghost ls = split_lines(s@);
        let lines = split_into_lines(s);
        let mut f = File::blank();
        let mut i: usize = 0;
        proof {
            assert(ls.subrange(0, 0) =~= Seq::<Seq<char>>::empty());
        }
        while i < lines.len()
            invariant
                i <= lines.len(),
                ls == split_lines(s@),
                lines.deep_view() == ls,
                f.wf(),
                parse_doc(ls.subrange(0, i as int)) == Some(f@),
                forall|j: int| 0 <= j < i ==> spec_parse_signed(#[trigger] ls[j]) is Some,
            decreases lines.len() - i,
        {
            proof {
                assert(ls.subrange(0, i + 1).drop_last() =~= ls.subrange(0, i as int));
                assert(ls.subrange(0, i + 1).last() == ls[i as int]);
                assert(ls[i as int] == lines@[i as int]@);
            }
            match Line::parse(lines[i].as_str()) {
                Some(l) => {
                    f.track(l);
                }
                None => {
                    proof {
                        lemma_parse_doc_none(ls, i as int);
                    }
                    return Err(SyntaxError { line: i });
                }
            }
            i += 1;
        }
        proof {
            assert(ls.subrange(0, ls.len() as int) =~= ls);
        }
        Ok(f)
    }
}


/// Whether two entries carry the same payload: everything but the
/// quantity.
pub open spec fn payload_eq(x: LineV, y: LineV) -> bool {
    x.set == y.set && x.oracle == y.oracle && x.gvars == y.gvars && x.lvars == y.lvars
}

/// In a well-formed document, each entry is the one its identity indexes.
pub proof fn lemma_doc_entry_qty(d: Seq<LineV>, j: int)
    requires
        doc_distinct(d),
        0 <= j < d.len(),
    ensures
        doc_index(d, line_id(d[j])) == j,
        doc_qty_i32(d, line_id(d[j])) == d[j].quantity,
{
    assert(forall|x: int| 0 <= x < j ==> line_id(#[trigger] d[x]) != line_id(d[j]));
    lemma_doc_index_from_scan(d, line_id(d[j]), j);
}

/// Every entry the first diff phase emits is an entry of `a` with its
/// quantity replaced by the signed difference, and that difference is
/// nonzero.
pub proof fn lemma_diff_first_entries(a: Seq<LineV>, b: Seq<LineV>)
    requires
        doc_distinct(a),
    ensures
        forall|i: int|
            0 <= i < diff_first(a, b).len() ==> exists|j: int|
                {
                    let x = #[trigger] diff_first(a, b)[i];
                    &&& 0 <= j < a.len()
                    &&& payload_eq(x, #[trigger] a[j])
                    &&& x.quantity == i32_specs::wrapping_sub(
                        doc_qty_i32(b, line_id(a[j])),
                        a[j].quantity,
                    )
                    &&& a[j].quantity == doc_qty_i32(a, line_id(a[j]))
                    &&& x.quantity != 0
                },
    decreases a.len(),
{
    if a.len() > 0 {
        assert(doc_distinct(a.drop_last())) by {
            assert(forall|i: int|
                0 <= i < a.len() - 1 ==> a.drop_last()[i] == #[trigger] a[i]);
        }
        lemma_diff_first_entries(a.drop_last(), b);
        let rest = diff_first(a.drop_last(), b);
        let e = a.last();
        let q = i32_specs::wrapping_sub(doc_qty_i32(b, line_id(e)), e.quantity);
        assert forall|i: int| 0 <= i < diff_first(a, b).len() implies exists|j: int|
            {
                let x = #[trigger] diff_first(a, b)[i];
                &&& 0 <= j < a.len()
                &&& payload_eq(x, #[trigger] a[j])
                &&& x.quantity == i32_specs::wrapping_sub(
                    doc_qty_i32(b, line_id(a[j])),
                    a[j].quantity,
                )
                &&& a[j].quantity == doc_qty_i32(a, line_id(a[j]))
                &&& x.quantity != 0
            } by {
            if q != 0 && i == rest.len() {
                let x = diff_first(a, b)[i];
                assert(x == (LineV { quantity: q, ..e }));
                let j = a.len() - 1;
                lemma_doc_entry_qty(a, j);
                assert(payload_eq(x, a[j]));
                assert(line_id(x) == line_id(a[j]));
            } else {
                assert(diff_first(a, b)[i] == rest[i]);
                let j0 = choose|j: int|
                    {
                        let x = rest[i];
                        &&& 0 <= j < a.drop_last().len()
                        &&& payload_eq(x, #[trigger] a.drop_last()[j])
                        &&& x.quantity == i32_specs::wrapping_sub(
                            doc_qty_i32(b, line_id(a.drop_last()[j])),
                            a.drop_last()[j].quantity,
                        )
                        &&& a.drop_last()[j].quantity == doc_qty_i32(
                            a.drop_last(),
                            line_id(a.drop_last()[j]),
                        )
                        &&& x.quantity != 0
                    };
                assert(a.drop_last()[j0] == a[j0]);
                lemma_doc_entry_qty(a.drop_last(), j0);
                lemma_doc_entry_qty(a, j0);
            }
        }
    }
}

/// Every entry the second diff phase emits is an entry of `b`, verbatim,
/// whose identity `a` lacks.
pub proof fn lemma_b_only_entries(b: Seq<LineV>, a: Seq<LineV>)
    ensures
        forall|i: int|
            0 <= i < b_only(b, a).len() ==> exists|j: int|
                {
                    let x = #[trigger] b_only(b, a)[i];
                    &&& 0 <= j < b.len()
                    &&& x == #[trigger] b[j]
                    &&& !doc_has(a, line_id(b[j]))
                },
    decreases b.len(),
{
    if b.len() > 0 {
        lemma_b_only_entries(b.drop_last(), a);
        let rest = b_only(b.drop_last(), a);
        let e = b.last();
        assert forall|i: int| 0 <= i < b_only(b, a).len() implies exists|j: int|
            {
                let x = #[trigger] b_only(b, a)[i];
                &&& 0 <= j < b.len()
                &&& x == #[trigger] b[j]
                &&& !doc_has(a, line_id(b[j]))
            } by {
            if !doc_has(a, line_id(e)) && i == rest.len() {
                let j = b.len() - 1;
                assert(b_only(b, a)[i] == b[j]);
            } else {
                assert(b_only(b, a)[i] == rest[i]);
                let j0 = choose|j: int|
                    {
                        let x = rest[i];
                        &&& 0 <= j < b.drop_last().len()
                        &&& x == #[trigger] b.drop_last()[j]
                        &&& !doc_has(a, line_id(b.drop_last()[j]))
                    };
                assert(b.drop_last()[j0] == b[j0]);
            }
        }
    }
}

/// An identity of `a` whose signed difference is nonzero appears in the
/// diff.
pub proof fn lemma_diff_first_covers(a: Seq<LineV>, b: Seq<LineV>, j: int)
    requires
        doc_distinct(a),
        0 <= j < a.len(),
        i32_specs::wrapping_sub(doc_qty_i32(b, line_id(a[j])), a[j].quantity) != 0,
    ensures
        doc_has(diff_first(a, b), line_id(a[j])),
    decreases a.len(),
{
    let k = line_id(a[j]);
    let rest = diff_first(a.drop_last(), b);
    let e = a.last();
    let q = i32_specs::wrapping_sub(doc_qty_i32(b, line_id(e)), e.quantity);
    if j == a.len() - 1 {
        lemma_doc_entry_qty(a, j);
        assert(q != 0);
        let x = LineV { quantity: q, ..e };
        lemma_doc_has_exists(diff_first(a, b), k);
        assert(diff_first(a, b)[rest.len() as int] == x);
        assert(line_id(x) == k);
    } else {
        assert(doc_distinct(a.drop_last())) by {
            assert(forall|i: int|
                0 <= i < a.len() - 1 ==> a.drop_last()[i] == #[trigger] a[i]);
        }
        assert(a.drop_last()[j] == a[j]);
        lemma_diff_first_covers(a.drop_last(), b, j);
        lemma_doc_has_exists(rest, k);
        let i0 = choose|i: int| 0 <= i < rest.len() && line_id(#[trigger] rest[i]) == k;
        lemma_doc_has_exists(diff_first(a, b), k);
        if q != 0 {
            assert(diff_first(a, b)[i0] == rest[i0]);
        } else {
            assert(diff_first(a, b)[i0] == rest[i0]);
        }
    }
}

/// An identity of `b` that `a` lacks appears in the diff.
pub proof fn lemma_b_only_covers(b: Seq<LineV>, a: Seq<LineV>, j: int)
    requires
        0 <= j < b.len(),
        !doc_has(a, line_id(b[j])),
    ensures
        doc_has(b_only(b, a), line_id(b[j])),
    decreases b.len(),
{
    let k = line_id(b[j]);
    let rest = b_only(b.drop_last(), a);
    let e = b.last();
    if j == b.len() - 1 {
        lemma_doc_has_exists(b_only(b, a), k);
        assert(b_only(b, a)[rest.len() as int] == e);
    } else {
        assert(b.drop_last()[j] == b[j]);
        lemma_b_only_covers(b.drop_last(), a, j);
        lemma_doc_has_exists(rest, k);
        let i0 = choose|i: int| 0 <= i < rest.len() && line_id(#[trigger] rest[i]) == k;
        lemma_doc_has_exists(b_only(b, a), k);
        assert(b_only(b, a)[i0] == rest[i0]);
    }
}

/// Membership in a concatenation comes from either part.
pub proof fn lemma_doc_has_concat(x: Seq<LineV>, y: Seq<LineV>, k: Seq<char>)
    requires
        doc_has(x, k) || doc_has(y, k),
    ensures
        doc_has(x + y, k),
{
    lemma_doc_has_exists(x + y, k);
    if doc_has(x, k) {
        lemma_doc_has_exists(x, k);
        let i = choose|i: int| 0 <= i < x.len() && line_id(#[trigger] x[i]) == k;
        assert((x + y)[i] == x[i]);
    } else {
        lemma_doc_has_exists(y, k);
        let i = choose|i: int| 0 <= i < y.len() && line_id(#[trigger] y[i]) == k;
        assert((x + y)[x.len() + i] == y[i]);
    }
}

/// In a document of strictly positive entries, every entry is bounded by
/// the whole sum.
pub proof fn lemma_qsum_bounds(d: Seq<LineV>)
    requires
        forall|i: int| 0 <= i < d.len() ==> 0 < (#[trigger] d[i]).quantity,
    ensures
        qsum(d) >= 0,
        forall|i: int| 0 <= i < d.len() ==> (#[trigger] d[i]).quantity <= qsum(d),
    decreases d.len(),
{
    if d.len() > 0 {
        assert(forall|i: int|
            0 <= i < d.len() - 1 ==> d.drop_last()[i] == #[trigger] d[i]);
        lemma_qsum_bounds(d.drop_last());
    }
}

/// 32-bit wrap-around addition is addition modulo 2^32.
proof fn lemma_wrap_add_is_mod(x: u32, y: u32)
    ensures
        u32_specs::wrapping_add(x, y) as int == (x + y) % 0x1_0000_0000,
{
    let m = 0x1_0000_0000;
    let s = x as int + y as int;
    if s <= u32::MAX {
        lemma_small_mod(s as nat, m as nat);
    } else {
        lemma_mod_multiples_vanish(-1, s, m);
        lemma_small_mod((s - m) as nat, m as nat);
    }
}

} // verus!
