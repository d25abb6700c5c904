//! Resolution of parsed documents into catalog print identifiers, piles of
//! resolved deltas, the ownership ledger and its merge engine, and the
//! packed one-letter encodings used for catalog card attributes.

use vstd::prelude::*;

use crate::cdif;
use crate::cdif::clone_pairs;
use crate::cdif::clone_strings;
use crate::cdif::LineV;
use crate::text::push_char;
use crate::text::str_eq;
use vstd::string::StringExecFns;
use vstd::wrapping::i32_specs;

verus! {

/// One resolved delta: a signed quantity against a catalog print
/// identifier, with the source line's variants carried through verbatim.
pub struct Card {
    pub quantity: i32,
    pub id: String,
    pub gvars: Vec<String>,
    pub lvars: Vec<(String, String)>,
}

/// The mathematical value of a resolved delta.
pub ghost struct CardV {
    pub quantity: i32,
    pub id: Seq<char>,
    pub gvars: Seq<Seq<char>>,
    pub lvars: Seq<(Seq<char>, Seq<char>)>,
}

impl View for Card {
    type V = CardV;

    open spec fn view(&self) -> CardV {
        CardV {
            quantity: self.quantity,
            id: self.id@,
            gvars: self.gvars.deep_view(),
            lvars: self.lvars.deep_view(),
        }
    }
}

impl DeepView for Card {
    type V = CardV;

    open spec fn deep_view(&self) -> CardV {
        self.view()
    }
}

/// One transaction's or patch's worth of resolved deltas, in order.
pub struct Pile {
    pub cards: Vec<Card>,
}

impl View for Pile {
    type V = Seq<CardV>;

    open spec fn view(&self) -> Seq<CardV> {
        self.cards.deep_view()
    }
}

/// The name-to-print lookup table: a mapping from `"<SET> <NAME>"` keys to
/// opaque print identifiers, supplied by the catalog pipeline.
pub struct Lookup {
    entries: Vec<(String, String)>,
}

/// First index of a pair with key `k`, or -1.
pub open spec fn lk_index(es: Seq<(Seq<char>, Seq<char>)>, k: Seq<char>) -> int
    decreases es.len(),
{
    if es.len() == 0 {
        -1
    } else if es[0].0 == k {
        0
    } else {
        let r = lk_index(es.drop_first(), k);
        if r < 0 {
            -1
        } else {
            r + 1
        }
    }
}

impl View for Lookup {
    type V = Map<Seq<char>, Seq<char>>;

    closed spec fn view(&self) -> Map<Seq<char>, Seq<char>> {
        let es = self.entries.deep_view();
        Map::new(|k: Seq<char>| lk_index(es, k) >= 0, |k: Seq<char>| es[lk_index(es, k)].1)
    }
}

proof fn lemma_lk_index_range(es: Seq<(Seq<char>, Seq<char>)>, k: Seq<char>)
    ensures
        -1 <= lk_index(es, k) < es.len(),
        lk_index(es, k) >= 0 ==> es[lk_index(es, k)].0 == k,
        lk_index(es, k) < 0 ==> forall|j: int| 0 <= j < es.len() ==> (#[trigger] es[j]).0 != k,
        forall|j: int| 0 <= j < lk_index(es, k) ==> (#[trigger] es[j]).0 != k,
    decreases es.len(),
{
    if es.len() > 0 && es[0].0 != k {
        lemma_lk_index_range(es.drop_first(), k);
        assert(forall|j: int| 1 <= j < es.len() ==> #[trigger] es[j] == es.drop_first()[j - 1]);
    }
}

proof fn lemma_lk_index_from_scan(es: Seq<(Seq<char>, Seq<char>)>, k: Seq<char>, i: int)
    requires
        0 <= i <= es.len(),
        forall|j: int| 0 <= j < i ==> (#[trigger] es[j]).0 != k,
        i < es.len() ==> es[i].0 == k,
    ensures
        i < es.len() ==> lk_index(es, k) == i,
        i == es.len() ==> lk_index(es, k) == -1,
    decreases es.len(),
{
    if es.len() > 0 {
        if es[0].0 == k {
        } else {
            assert(forall|j: int|
                0 <= j < es.len() - 1 ==> #[trigger] es.drop_first()[j] == es[j + 1]);
            lemma_lk_index_from_scan(es.drop_first(), k, i - 1);
        }
    }
}

impl Lookup {
    /// An empty table.
    pub fn new() -> (r: Lookup)
        ensures
            r@ == Map::<Seq<char>, Seq<char>>::empty(),
    {
        let r = Lookup { entries: Vec::new() };
        proof {
            assert(r.entries.deep_view() =~= Seq::<(Seq<char>, Seq<char>)>::empty());
            assert(r@ =~= Map::<Seq<char>, Seq<char>>::empty());
        }
        r
    }

    /// Adds one key-to-identifier pair, replacing any earlier pair with the
    /// same key.
    pub fn insert(&mut self, key: String, pid: String)
        ensures
            final(self)@ == old(self)@.insert(key@, pid@),
    {
        let ghost es = self.entries.deep_view();
        let ghost m0 = old(self)@;
        let mut i: usize = 0;
        while i < self.entries.len()
            invariant
                i <= self.entries.len(),
                self.entries@ == old(self).entries@,
                es == old(self).entries.deep_view(),
                m0 == old(self)@,
                self.entries.deep_view() == es,
                forall|j: int| 0 <= j < i ==> (#[trigger] es[j]).0 != key@,
            decreases self.entries.len() - i,
        {
            if str_eq(self.entries[i].0.as_str(), key.as_str()) {
                proof {
                    lemma_lk_index_from_scan(es, key@, i as int);
                }
                let _ = self.entries.remove(i);
                self.entries.insert(i, (key, pid));
                proof {
                    let now = self.entries.deep_view();
                    assert forall|x: int| 0 <= x < now.len() implies now[x] == es.update(
                        i as int,
                        (key@, pid@),
                    )[x] by {
                        assert(now[x] == self.entries@[x].deep_view());
                    }
                    assert(now =~= es.update(i as int, (key@, pid@)));
                    lemma_map_after_update(es, i as int, key@, pid@, m0);
                }
                return ;
            }
            i += 1;
        }
        proof {
            lemma_lk_index_from_scan(es, key@, es.len() as int);
        }
        self.entries.push((key, pid));
        proof {
            let now = self.entries.deep_view();
            assert forall|x: int| 0 <= x < now.len() implies now[x] == es.push((key@, pid@))[x] by {
                assert(now[x] == self.entries@[x].deep_view());
                if x < es.len() {
                    assert(self.entries@[x] == old(self).entries@[x]);
                }
            }
            assert(now =~= es.push((key@, pid@)));
            lemma_map_after_push(es, key@, pid@, m0);
        }
    }

    /// The print identifier stored for a key, if any.
    pub fn get(&self, key: &str) -> (r: Option<&String>)
        ensures
            match r {
                Some(v) => self@.contains_key(key@) && v@ == self@[key@],
                None => !self@.contains_key(key@),
            },
    {
        let ghost es = self.entries.deep_view();
        let mut i: usize = 0;
        while i < self.entries.len()
            invariant
                i <= self.entries.len(),
                self.entries.deep_view() == es,
                forall|j: int| 0 <= j < i ==> (#[trigger] es[j]).0 != key@,
            decreases self.entries.len() - i,
        {
            if str_eq(self.entries[i].0.as_str(), key) {
                proof {
                    lemma_lk_index_from_scan(es, key@, i as int);
                }
                return Some(&self.entries[i].1);
            }
            i += 1;
        }
        proof {
            lemma_lk_index_from_scan(es, key@, es.len() as int);
        }
        None
    }
}


proof fn lemma_map_after_update(
    es: Seq<(Seq<char>, Seq<char>)>,
    i: int,
    k: Seq<char>,
    v: Seq<char>,
    m0: Map<Seq<char>, Seq<char>>,
)
    requires
        0 <= i < es.len(),
        es[i].0 == k,
        forall|j: int| 0 <= j < i ==> (#[trigger] es[j]).0 != k,
        m0 == Map::new(|k: Seq<char>| lk_index(es, k) >= 0, |k: Seq<char>| es[lk_index(es, k)].1),
    ensures
        Map::new(
            |q: Seq<char>| lk_index(es.update(i, (k, v)), q) >= 0,
            |q: Seq<char>| es.update(i, (k, v))[lk_index(es.update(i, (k, v)), q)].1,
        ) == m0.insert(k, v),
{
    let es2 = es.update(i, (k, v));
    let m2 = Map::new(|q: Seq<char>| lk_index(es2, q) >= 0, |q: Seq<char>| es2[lk_index(es2, q)].1);
    assert forall|q: Seq<char>| true implies #[trigger] lk_index(es2, q) == lk_index(es, q) by {
        lemma_lk_same_keys(es, es2, q);
    }
    assert forall|q: Seq<char>| m2.contains_key(q) implies m0.insert(k, v).contains_key(q)
        && m2[q] == m0.insert(k, v)[q] by {
        lemma_lk_index_range(es2, q);
        if q == k {
            lemma_lk_index_from_scan(es2, k, i);
        } else {
            assert(es2[lk_index(es2, q)].1 == es[lk_index(es, q)].1);
        }
    }
    assert forall|q: Seq<char>| m0.insert(k, v).contains_key(q) implies m2.contains_key(q) by {
        if q == k {
            lemma_lk_index_from_scan(es2, k, i);
        }
    }
    assert(m2 =~= m0.insert(k, v));
}

/// Two entry lists whose keys agree position by position index the same.
proof fn lemma_lk_same_keys(
    a: Seq<(Seq<char>, Seq<char>)>,
    b: Seq<(Seq<char>, Seq<char>)>,
    k: Seq<char>,
)
    requires
        a.len() == b.len(),
        forall|j: int| 0 <= j < a.len() ==> (#[trigger] a[j]).0 == (#[trigger] b[j]).0,
    ensures
        lk_index(a, k) == lk_index(b, k),
    decreases a.len(),
{
    if a.len() > 0 {
        assert(a[0].0 == b[0].0);
        if a[0].0 != k {
            assert(forall|j: int|
                0 <= j < a.len() - 1 ==> #[trigger] a.drop_first()[j] == a[j + 1]);
            assert(forall|j: int|
                0 <= j < b.len() - 1 ==> #[trigger] b.drop_first()[j] == b[j + 1]);
            lemma_lk_same_keys(a.drop_first(), b.drop_first(), k);
        }
    }
}

proof fn lemma_map_after_push(
    es: Seq<(Seq<char>, Seq<char>)>,
    k: Seq<char>,
    v: Seq<char>,
    m0: Map<Seq<char>, Seq<char>>,
)
    requires
        forall|j: int| 0 <= j < es.len() ==> (#[trigger] es[j]).0 != k,
        m0 == Map::new(|k: Seq<char>| lk_index(es, k) >= 0, |k: Seq<char>| es[lk_index(es, k)].1),
    ensures
        Map::new(
            |q: Seq<char>| lk_index(es.push((k, v)), q) >= 0,
            |q: Seq<char>| es.push((k, v))[lk_index(es.push((k, v)), q)].1,
        ) == m0.insert(k, v),
{
    let es2 = es.push((k, v));
    let m2 = Map::new(|q: Seq<char>| lk_index(es2, q) >= 0, |q: Seq<char>| es2[lk_index(es2, q)].1);
    assert forall|q: Seq<char>| true implies #[trigger] lk_index(es2, q) == (if q == k {
        es.len() as int
    } else {
        lk_index(es, q)
    }) by {
        lemma_lk_index_range(es, q);
        if q == k {
            lemma_lk_index_from_scan(es2, k, es.len() as int);
        } else {
            if lk_index(es, q) >= 0 {
                let i = lk_index(es, q);
                assert(es2[i] == es[i]);
                assert(forall|j: int| 0 <= j < i ==> #[trigger] es2[j] == es[j]);
                lemma_lk_index_from_scan(es2, q, i);
            } else {
                assert(forall|j: int| 0 <= j < es.len() ==> #[trigger] es2[j] == es[j]);
                assert(es2[es.len() as int].0 == k);
                lemma_lk_index_from_scan(es2, q, es2.len() as int);
            }
        }
    }
    assert forall|q: Seq<char>| m2.contains_key(q) implies m0.insert(k, v).contains_key(q)
        && m2[q] == m0.insert(k, v)[q] by {
        if q != k {
            lemma_lk_index_range(es, q);
            assert(es2[lk_index(es, q)] == es[lk_index(es, q)]);
        }
    }
    assert(m2 =~= m0.insert(k, v));
}

/// The key a line resolves under: `"<SET> <NAME>"`, without variants.
pub open spec fn resolve_key(l: LineV) -> Seq<char> {
    l.set + seq![' '] + l.oracle
}

/// First entry whose resolve key the lookup lacks, or -1.
pub open spec fn first_unresolved(d: Seq<LineV>, m: Map<Seq<char>, Seq<char>>) -> int
    decreases d.len(),
{
    if d.len() == 0 {
        -1
    } else if !m.contains_key(resolve_key(d[0])) {
        0
    } else {
        let r = first_unresolved(d.drop_first(), m);
        if r < 0 {
            -1
        } else {
            r + 1
        }
    }
}

/// Resolving a whole document, entry by entry in order: every identity must
/// resolve, or the whole call fails.
pub open spec fn resolve_doc(d: Seq<LineV>, m: Map<Seq<char>, Seq<char>>) -> Option<Seq<CardV>>
    decreases d.len(),
{
    if d.len() == 0 {
        Some(Seq::empty())
    } else {
        match resolve_doc(d.drop_last(), m) {
            None => None,
            Some(cs) => {
                let e = d.last();
                if m.contains_key(resolve_key(e)) {
                    Some(
                        cs.push(
                            CardV {
                                quantity: e.quantity,
                                id: m[resolve_key(e)],
                                gvars: e.gvars,
                                lvars: e.lvars,
                            },
                        ),
                    )
                } else {
                    None
                }
            }
        }
    }
}

proof fn lemma_resolve_doc_none(d: Seq<LineV>, m: Map<Seq<char>, Seq<char>>, i: int)
    requires
        0 <= i < d.len(),
        !m.contains_key(resolve_key(d[i])),
    ensures
        resolve_doc(d, m) is None,
    decreases d.len(),
{
    if i < d.len() - 1 {
        assert(d.drop_last()[i] == d[i]);
        lemma_resolve_doc_none(d.drop_last(), m, i);
    }
}

proof fn lemma_first_unresolved_from_scan(d: Seq<LineV>, m: Map<Seq<char>, Seq<char>>, i: int)
    requires
        0 <= i <= d.len(),
        forall|j: int| 0 <= j < i ==> m.contains_key(resolve_key(#[trigger] d[j])),
        i < d.len() ==> !m.contains_key(resolve_key(d[i])),
    ensures
        i < d.len() ==> first_unresolved(d, m) == i,
        i == d.len() ==> first_unresolved(d, m) == -1,
    decreases d.len(),
{
    if d.len() > 0 && m.contains_key(resolve_key(d[0])) {
        assert(forall|j: int|
            0 <= j < d.len() - 1 ==> #[trigger] d.drop_first()[j] == d[j + 1]);
        lemma_first_unresolved_from_scan(d.drop_first(), m, i - 1);
    }
}

/// The unresolved-identity error: resolution is all-or-nothing, and the
/// offending `"<SET> <NAME>"` key is reported.
#[derive(Debug)]
pub struct ResolveError {
    pub key: String,
}

/// Appends one resolved card, at the level of the pile model.
pub(crate) fn push_card(out: &mut Vec<Card>, c: Card)
    ensures
        final(out).deep_view() == old(out).deep_view().push(c@),
{
    let ghost pre = out.deep_view();
    let ghost oldv = out@;
    let ghost cv = c@;
    out.push(c);
    proof {
        assert forall|j: int| 0 <= j < out.deep_view().len() implies out.deep_view()[j] == pre.push(
            cv,
        )[j] by {
            assert(out.deep_view()[j] == out@[j].deep_view());
            if j < oldv.len() {
                assert(out@[j] == oldv[j]);
                assert(pre[j] == oldv[j].deep_view());
            }
        }
        assert(out.deep_view() =~= pre.push(cv));
    }
}

impl Pile {
    /// Resolves every entry of an aggregated document into a pile of
    /// deltas, in the document's order, carrying quantity sign and variants
    /// verbatim.  An identity the lookup lacks fails the whole call.
    pub fn resolve(file: cdif::File, lookup: Lookup) -> (r: Result<Pile, ResolveError>)
        ensures
            match r {
                Ok(p) => resolve_doc(file@, lookup@) == Some(p@),
                Err(e) => {
                    let i = first_unresolved(file@, lookup@);
                    &&& resolve_doc(file@, lookup@) is None
                    &&& 0 <= i < file@.len()
                    &&& e.key@ == resolve_key(file@[i])
                },
            },
    {
        let ghost d = file@;
        let ghost m = lookup@;
        let mut out: Vec<Card> = Vec::new();
        proof {
            assert(out.deep_view() =~= Seq::<CardV>::empty());
            assert(d.subrange(0, 0) =~= Seq::<LineV>::empty());
        }
        let lines = file.entries();
        let mut i: usize = 0;
        while i < lines.len()
            invariant
                i <= lines.len(),
                d == file@,
                m == lookup@,
                lines.deep_view() == d,
                resolve_doc(d.subrange(0, i as int), m) == Some(out.deep_view()),
                forall|j: int| 0 <= j < i ==> m.contains_key(resolve_key(#[trigger] d[j])),
            decreases lines.len() - i,
        {
            let line = &lines[i];
            let mut key = String::new();
            key.append(line.set.as_str());
            push_char(&mut key, ' ');
            key.append(line.oracle.as_str());
            proof {
                assert(key@ =~= resolve_key(d[i as int]));
                assert(d.subrange(0, i + 1).drop_last() =~= d.subrange(0, i as int));
                assert(d.subrange(0, i + 1).last() == d[i as int]);
            }
            match lookup.get(key.as_str()) {
                Some(pid) => {
                    let c = Card {
                        quantity: line.quantity,
                        id: pid.clone(),
                        gvars: clone_strings(&line.gvars),
                        lvars: clone_pairs(&line.lvars),
                    };
                    push_card(&mut out, c);
                }
                None => {
                    proof {
                        lemma_resolve_doc_none(d, m, i as int);
                        lemma_first_unresolved_from_scan(d, m, i as int);
                    }
                    return Err(ResolveError { key });
                }
            }
            i += 1;
        }
        proof {
            assert(d.subrange(0, d.len() as int) =~= d);
        }
        Ok(Pile { cards: out })
    }

    /// Negates every delta in place, turning a loss section into a
    /// subtractive patch.
    pub fn invert(&mut self)
        ensures
            final(self)@.len() == old(self)@.len(),
            forall|i: int|
                0 <= i < old(self)@.len() ==> #[trigger] final(self)@[i] == (CardV {
                    quantity: i32_specs::wrapping_mul(old(self)@[i].quantity, -1i32),
                    ..old(self)@[i]
                }),
    {
        let ghost d = old(self)@;
        let mut i: usize = 0;
        while i < self.cards.len()
            invariant
                i <= self.cards.len(),
                self.cards.deep_view().len() == d.len(),
                forall|j: int|
                    i <= j < d.len() ==> #[trigger] self.cards.deep_view()[j] == d[j],
                forall|j: int|
                    0 <= j < i ==> #[trigger] self.cards.deep_view()[j] == (CardV {
                        quantity: i32_specs::wrapping_mul(d[j].quantity, -1i32),
                        ..d[j]
                    }),
            decreases self.cards.len() - i,
        {
            let ghost prevec = self.cards@;
            let ghost predeep = self.cards.deep_view();
            let c = self.cards.remove(i);
            proof {
                assert(predeep[i as int] == prevec[i as int].deep_view());
                assert(c@ == d[i as int]);
            }
            let q = c.quantity.wrapping_mul(-1);
            let c2 = Card { quantity: q, ..c };
            let ghost c2v = c2@;
            self.cards.insert(i, c2);
            proof {
                assert(self.cards@ =~= prevec.update(i as int, self.cards@[i as int]));
                assert(c2v == CardV { quantity: i32_specs::wrapping_mul(d[i as int].quantity, -1i32), ..d[i as int] });
                assert forall|j: int| 0 <= j < self.cards.deep_view().len() implies self
                    .cards.deep_view()[j] == (if j == i as int {
                    c2v
                } else {
                    predeep[j]
                }) by {
                    assert(self.cards.deep_view()[j] == self.cards@[j].deep_view());
                    if j != i as int {
                        assert(self.cards@[j] == prevec[j]);
                        assert(predeep[j] == prevec[j].deep_view());
                    }
                }
            }
            i += 1;
        }
    }
}

/// One ledger row: a print identifier and its variant tags.
pub struct OwnedCard {
    pub pid: String,
    pub var: Vec<String>,
}

/// The mathematical value of a ledger row's identity part.
pub ghost struct OwnedCardV {
    pub pid: Seq<char>,
    pub var: Seq<Seq<char>>,
}

impl View for OwnedCard {
    type V = OwnedCardV;

    open spec fn view(&self) -> OwnedCardV {
        OwnedCardV { pid: self.pid@, var: self.var.deep_view() }
    }
}

impl DeepView for OwnedCard {
    type V = OwnedCardV;

    open spec fn deep_view(&self) -> OwnedCardV {
        self.view()
    }
}

/// The per-collector ownership ledger: one row per print identifier, each
/// with a strictly positive quantity.
pub struct Collection {
    pub cards: Vec<(u32, OwnedCard)>,
}

impl View for Collection {
    type V = Seq<(u32, OwnedCardV)>;

    open spec fn view(&self) -> Seq<(u32, OwnedCardV)> {
        self.cards.deep_view()
    }
}

/// First row with the given print identifier, or -1.
pub open spec fn col_index(s: Seq<(u32, OwnedCardV)>, pid: Seq<char>) -> int
    decreases s.len(),
{
    if s.len() == 0 {
        -1
    } else if s[0].1.pid == pid {
        0
    } else {
        let r = col_index(s.drop_first(), pid);
        if r < 0 {
            -1
        } else {
            r + 1
        }
    }
}

/// The owned quantity for a print identifier, or 0.
pub open spec fn col_qty(s: Seq<(u32, OwnedCardV)>, pid: Seq<char>) -> int {
    if col_index(s, pid) >= 0 {
        s[col_index(s, pid)].0 as int
    } else {
        0
    }
}

/// Ledger well-formedness: at most one row per print identifier, and no
/// zero-quantity rows.
pub open spec fn col_wf(s: Seq<(u32, OwnedCardV)>) -> bool {
    &&& forall|i: int, j: int|
        0 <= i < j < s.len() ==> (#[trigger] s[i]).1.pid != (#[trigger] s[j]).1.pid
    &&& forall|i: int| 0 <= i < s.len() ==> (#[trigger] s[i]).0 >= 1
}

/// A stored quantity reinterpreted at the signed width the merge
/// arithmetic runs at.
pub open spec fn as_signed_u32(q: u32) -> i32 {
    cdif::as_signed(q)
}

/// One delta folded into the ledger: find the first row with the same
/// print identifier (variant tags are not part of the match); add the
/// delta, clamping at zero and removing the row when it reaches exactly
/// zero; an unmatched positive delta appends a new row, an unmatched
/// non-positive delta is a no-op.
pub open spec fn merge_card(s: Seq<(u32, OwnedCardV)>, d: CardV) -> Seq<(u32, OwnedCardV)> {
    let i = col_index(s, d.id);
    if i >= 0 {
        let t = i32_specs::wrapping_add(d.quantity, as_signed_u32(s[i].0));
        let q: u32 = if t < 0 {
            0
        } else {
            t as u32
        };
        if q == 0 {
            s.remove(i)
        } else {
            s.update(i, (q, s[i].1))
        }
    } else if d.quantity > 0 {
        s.push((d.quantity as u32, OwnedCardV { pid: d.id, var: Seq::empty() }))
    } else {
        s
    }
}

/// A whole pile folded into the ledger, delta by delta in order.
pub open spec fn merge_pile(s: Seq<(u32, OwnedCardV)>, p: Seq<CardV>) -> Seq<(u32, OwnedCardV)>
    decreases p.len(),
{
    if p.len() == 0 {
        s
    } else {
        merge_pile(merge_card(s, p[0]), p.drop_first())
    }
}

pub proof fn lemma_col_index_range(s: Seq<(u32, OwnedCardV)>, pid: Seq<char>)
    ensures
        -1 <= col_index(s, pid) < s.len(),
        col_index(s, pid) >= 0 ==> s[col_index(s, pid)].1.pid == pid,
        col_index(s, pid) < 0 ==> forall|j: int|
            0 <= j < s.len() ==> (#[trigger] s[j]).1.pid != pid,
    decreases s.len(),
{
    if s.len() > 0 && s[0].1.pid != pid {
        lemma_col_index_range(s.drop_first(), pid);
        assert(forall|j: int| 1 <= j < s.len() ==> #[trigger] s[j] == s.drop_first()[j - 1]);
    }
}

proof fn lemma_col_index_from_scan(s: Seq<(u32, OwnedCardV)>, pid: Seq<char>, i: int)
    requires
        0 <= i <= s.len(),
        forall|j: int| 0 <= j < i ==> (#[trigger] s[j]).1.pid != pid,
        i < s.len() ==> s[i].1.pid == pid,
    ensures
        i < s.len() ==> col_index(s, pid) == i,
        i == s.len() ==> col_index(s, pid) == -1,
    decreases s.len(),
{
    if s.len() > 0 {
        if s[0].1.pid == pid {
        } else {
            assert(forall|j: int|
                0 <= j < s.len() - 1 ==> #[trigger] s.drop_first()[j] == s[j + 1]);
            lemma_col_index_from_scan(s.drop_first(), pid, i - 1);
        }
    }
}

/// One merge step keeps the ledger well-formed.
pub proof fn lemma_merge_card_wf(s: Seq<(u32, OwnedCardV)>, d: CardV)
    requires
        col_wf(s),
    ensures
        col_wf(merge_card(s, d)),
{
    lemma_col_index_range(s, d.id);
    let i = col_index(s, d.id);
    if i >= 0 {
        let t = i32_specs::wrapping_add(d.quantity, as_signed_u32(s[i].0));
        let q: u32 = if t < 0 {
            0
        } else {
            t as u32
        };
        if q == 0 {
            let r = s.remove(i);
            assert forall|x: int, y: int| 0 <= x < y < r.len() implies (#[trigger] r[x]).1.pid != (
            #[trigger] r[y]).1.pid by {
                let x0 = if x < i {
                    x
                } else {
                    x + 1
                };
                let y0 = if y < i {
                    y
                } else {
                    y + 1
                };
                assert(r[x] == s[x0] && r[y] == s[y0]);
            }
        } else {
            let r = s.update(i, (q, s[i].1));
            assert(forall|x: int| 0 <= x < r.len() ==> (#[trigger] r[x]).1.pid == s[x].1.pid);
        }
    } else if d.quantity > 0 {
        let r = s.push((d.quantity as u32, OwnedCardV { pid: d.id, var: Seq::empty() }));
        assert forall|x: int, y: int| 0 <= x < y < r.len() implies (#[trigger] r[x]).1.pid != (
        #[trigger] r[y]).1.pid by {
            if y < s.len() {
                assert(r[x] == s[x] && r[y] == s[y]);
            } else {
                assert(r[x] == s[x] && r[y].1.pid == d.id);
            }
        }
    }
}

/// Merging a whole pile keeps the ledger well-formed.
pub proof fn lemma_merge_pile_wf(s: Seq<(u32, OwnedCardV)>, p: Seq<CardV>)
    requires
        col_wf(s),
    ensures
        col_wf(merge_pile(s, p)),
    decreases p.len(),
{
    if p.len() > 0 {
        lemma_merge_card_wf(s, p[0]);
        lemma_merge_pile_wf(merge_card(s, p[0]), p.drop_first());
    }
}

/// Scans the ledger for the first row with the given print identifier.
fn find_row(cards: &Vec<(u32, OwnedCard)>, pid: &str) -> (r: Option<usize>)
    ensures
        match r {
            Some(i) => i < cards.deep_view().len() && col_index(cards.deep_view(), pid@) == i,
            None => col_index(cards.deep_view(), pid@) == -1,
        },
{
    let ghost s = cards.deep_view();
    let mut i: usize = 0;
    while i < cards.len()
        invariant
            i <= cards.len(),
            cards.deep_view() == s,
            forall|j: int| 0 <= j < i ==> (#[trigger] s[j]).1.pid != pid@,
        decreases cards.len() - i,
    {
        if str_eq(cards[i].1.pid.as_str(), pid) {
            proof {
                lemma_col_index_from_scan(s, pid@, i as int);
            }
            return Some(i);
        }
        i += 1;
    }
    proof {
        lemma_col_index_from_scan(s, pid@, cards.len() as int);
    }
    None
}

impl Collection {
    /// Ledger well-formedness, as a predicate on the whole structure.
    pub open spec fn wf(&self) -> bool {
        col_wf(self@)
    }

    /// An empty ledger.
    pub fn new() -> (r: Collection)
        ensures
            r@ =~= Seq::<(u32, OwnedCardV)>::empty(),
            r.wf(),
    {
        let r = Collection { cards: Vec::new() };
        proof {
            assert(r@ =~= Seq::<(u32, OwnedCardV)>::empty());
        }
        r
    }

    /// Folds a patch into the ledger, delta by delta in order: quantities
    /// add against the row with the same print identifier, clamp at zero
    /// (overdraft is absorbed, never an error), a row reaching exactly
    /// zero is removed, and an unmatched positive delta appends a new row.
    pub fn merge(&mut self, patch: &Pile)
        requires
            old(self).wf(),
        ensures
            final(self)@ == merge_pile(old(self)@, patch@),
            final(self).wf(),
    {
        let ghost p = patch@;
        proof {
            assert(p.subrange(0, p.len() as int) =~= p);
        }
        let mut n: usize = 0;
        while n < patch.cards.len()
            invariant
                n <= patch.cards.len(),
                patch.cards.deep_view() == p,
                self.wf(),
                merge_pile(old(self)@, p) == merge_pile(self@, p.subrange(n as int, p.len() as int)),
            decreases patch.cards.len() - n,
        {
            let ghost s = self@;
            let new = &patch.cards[n];
            let ghost dv = p[n as int];
            proof {
                assert(p.subrange(n as int, p.len() as int)[0] == p[n as int]);
                assert(p.subrange(n as int, p.len() as int).drop_first() =~= p.subrange(
                    n + 1,
                    p.len() as int,
                ));
                lemma_merge_card_wf(s, dv);
            }
            let hit = find_row(&self.cards, new.id.as_str());
            if let Some(i) = hit {
                let (q0, oc) = self.cards.remove(i);
                let qs: i32 = if q0 <= 0x7FFF_FFFF {
                    q0 as i32
                } else {
                    ((q0 as i64) - 0x1_0000_0000i64) as i32
                };
                let t = new.quantity.wrapping_add(qs);
                let q1: u32 = if t < 0 {
                    0
                } else {
                    t as u32
                };
                if q1 == 0 {
                    proof {
                        assert(self.cards.deep_view() =~= s.remove(i as int));
                        assert(self@ == merge_card(s, dv));
                    }
                } else {
                    self.cards.insert(i, (q1, oc));
                    proof {
                        let now = self.cards.deep_view();
                        assert forall|x: int| 0 <= x < now.len() implies now[x] == s.update(
                            i as int,
                            (q1, s[i as int].1),
                        )[x] by {
                            assert(now[x] == self.cards@[x].deep_view());
                        }
                        assert(now =~= s.update(i as int, (q1, s[i as int].1)));
                        assert(self@ == merge_card(s, dv));
                    }
                }
            } else {
                if new.quantity > 0 {
                    let row = (new.quantity as u32, OwnedCard { pid: new.id.clone(), var: Vec::new() });
                    let ghost rowv = (new.quantity as u32, OwnedCardV { pid: dv.id, var: Seq::<Seq<char>>::empty() });
                    let ghost oldv = self.cards@;
                    let ghost pre = self.cards.deep_view();
                    self.cards.push(row);
                    proof {
                        assert(rowv.1.var =~= Seq::<Seq<char>>::empty());
                        assert forall|x: int| 0 <= x < self.cards.deep_view().len() implies self
                            .cards.deep_view()[x] == pre.push(rowv)[x] by {
                            assert(self.cards.deep_view()[x] == self.cards@[x].deep_view());
                            if x < oldv.len() {
                                assert(self.cards@[x] == oldv[x]);
                                assert(pre[x] == oldv[x].deep_view());
                            } else {
                                assert(self.cards@[x].deep_view().1.var
                                    =~= Seq::<Seq<char>>::empty());
                            }
                        }
                        assert(self.cards.deep_view() =~= pre.push(rowv));
                        assert(self@ == merge_card(s, dv));
                    }
                } else {
                    proof {
                        assert(self@ == merge_card(s, dv));
                    }
                }
            }
            n += 1;
        }
        proof {
            assert(p.subrange(p.len() as int, p.len() as int) =~= Seq::<CardV>::empty());
            assert(merge_pile(self@, p.subrange(p.len() as int, p.len() as int)) == self@);
        }
    }
}

/// The total quantity a ledger holds against one print identifier.  With
/// the well-formedness invariant this is the matching row's quantity, or 0.
pub open spec fn colsum(s: Seq<(u32, OwnedCardV)>, p: Seq<char>) -> int
    decreases s.len(),
{
    if s.len() == 0 {
        0
    } else {
        colsum(s.drop_last(), p) + if s.last().1.pid == p {
            s.last().0 as int
        } else {
            0
        }
    }
}

/// The total delta a pile carries against one print identifier.
pub open spec fn pilesum(cs: Seq<CardV>, p: Seq<char>) -> int
    decreases cs.len(),
{
    if cs.len() == 0 {
        0
    } else {
        (if cs[0].id == p {
            cs[0].quantity as int
        } else {
            0
        }) + pilesum(cs.drop_first(), p)
    }
}

pub proof fn lemma_colsum_nonneg(s: Seq<(u32, OwnedCardV)>, p: Seq<char>)
    ensures
        colsum(s, p) >= 0,
    decreases s.len(),
{
    if s.len() > 0 {
        lemma_colsum_nonneg(s.drop_last(), p);
    }
}

proof fn lemma_colsum_absent(s: Seq<(u32, OwnedCardV)>, p: Seq<char>)
    requires
        forall|j: int| 0 <= j < s.len() ==> (#[trigger] s[j]).1.pid != p,
    ensures
        colsum(s, p) == 0,
    decreases s.len(),
{
    if s.len() > 0 {
        lemma_colsum_absent(s.drop_last(), p);
    }
}

/// With one row per print identifier, the sum for a held identifier is
/// that row's quantity.
proof fn lemma_colsum_unique(s: Seq<(u32, OwnedCardV)>, i: int, p: Seq<char>)
    requires
        col_wf(s),
        0 <= i < s.len(),
        s[i].1.pid == p,
    ensures
        colsum(s, p) == s[i].0,
    decreases s.len(),
{
    if i == s.len() - 1 {
        assert(forall|j: int| 0 <= j < s.len() - 1 ==> #[trigger] s.drop_last()[j] == s[j]);
        lemma_colsum_absent(s.drop_last(), p);
    } else {
        assert(forall|j: int| 0 <= j < s.len() - 1 ==> #[trigger] s.drop_last()[j] == s[j]);
        assert(col_wf(s.drop_last()));
        lemma_colsum_unique(s.drop_last(), i, p);
        assert(s.last().1.pid != p);
    }
}

proof fn lemma_colsum_remove(s: Seq<(u32, OwnedCardV)>, i: int, p: Seq<char>)
    requires
        0 <= i < s.len(),
    ensures
        colsum(s.remove(i), p) == colsum(s, p) - (if s[i].1.pid == p {
            s[i].0 as int
        } else {
            0
        }),
    decreases s.len(),
{
    if i == s.len() - 1 {
        assert(s.remove(i) =~= s.drop_last());
    } else {
        assert(s.remove(i).drop_last() =~= s.drop_last().remove(i));
        assert(s.remove(i).last() == s.last());
        lemma_colsum_remove(s.drop_last(), i, p);
    }
}

proof fn lemma_colsum_update(s: Seq<(u32, OwnedCardV)>, i: int, e: (u32, OwnedCardV), p: Seq<char>)
    requires
        0 <= i < s.len(),
    ensures
        colsum(s.update(i, e), p) == colsum(s, p) - (if s[i].1.pid == p {
            s[i].0 as int
        } else {
            0
        }) + (if e.1.pid == p {
            e.0 as int
        } else {
            0
        }),
    decreases s.len(),
{
    if i == s.len() - 1 {
        assert(s.update(i, e).drop_last() =~= s.drop_last());
        assert(s.update(i, e).last() == e);
    } else {
        assert(s.update(i, e).drop_last() =~= s.drop_last().update(i, e));
        assert(s.update(i, e).last() == s.last());
        lemma_colsum_update(s.drop_last(), i, e, p);
    }
}

/// The whole effect of one merged delta on the per-identifier totals, in
/// the range where the stored arithmetic is exact: the matched total is
/// clamped at zero, every other total is untouched.
pub proof fn lemma_merge_card_sum(s: Seq<(u32, OwnedCardV)>, d: CardV)
    requires
        col_wf(s),
        colsum(s, d.id) <= 0x7FFF_FFFF,
        colsum(s, d.id) + d.quantity <= 0x7FFF_FFFF,
    ensures
        col_wf(merge_card(s, d)),
        forall|p: Seq<char>|
            #[trigger] colsum(merge_card(s, d), p) == (if p == d.id {
                let t = colsum(s, d.id) + d.quantity;
                if t < 0 {
                    0
                } else {
                    t
                }
            } else {
                colsum(s, p)
            }),
{
    lemma_merge_card_wf(s, d);
    lemma_col_index_range(s, d.id);
    let i = col_index(s, d.id);
    if i >= 0 {
        lemma_colsum_unique(s, i, d.id);
        lemma_colsum_nonneg(s, d.id);
        assert(as_signed_u32(s[i].0) == s[i].0);
        let t = i32_specs::wrapping_add(d.quantity, as_signed_u32(s[i].0));
        assert(t == d.quantity + s[i].0);
        let q: u32 = if t < 0 {
            0
        } else {
            t as u32
        };
        if q == 0 {
            assert forall|p: Seq<char>| true implies #[trigger] colsum(s.remove(i), p) == (if p
                == d.id {
                let t2 = colsum(s, d.id) + d.quantity;
                if t2 < 0 {
                    0
                } else {
                    t2
                }
            } else {
                colsum(s, p)
            }) by {
                lemma_colsum_remove(s, i, p);
                if p == d.id {
                } else {
                    assert(s[i].1.pid != p);
                }
            }
        } else {
            let e = (q, s[i].1);
            assert forall|p: Seq<char>| true implies #[trigger] colsum(s.update(i, e), p) == (if p
                == d.id {
                let t2 = colsum(s, d.id) + d.quantity;
                if t2 < 0 {
                    0
                } else {
                    t2
                }
            } else {
                colsum(s, p)
            }) by {
                lemma_colsum_update(s, i, e, p);
                if p != d.id {
                    assert(s[i].1.pid != p);
                    assert(e.1.pid != p);
                }
            }
        }
    } else {
        assert forall|p: Seq<char>| true implies colsum(s, p) == 0 || p != d.id by {
            if p == d.id {
                lemma_colsum_absent(s, p);
            }
        }
        if d.quantity > 0 {
            let x = (d.quantity as u32, OwnedCardV { pid: d.id, var: Seq::<Seq<char>>::empty() });
            assert forall|p: Seq<char>| true implies #[trigger] colsum(s.push(x), p) == (if p
                == d.id {
                let t2 = colsum(s, d.id) + d.quantity;
                if t2 < 0 {
                    0
                } else {
                    t2
                }
            } else {
                colsum(s, p)
            }) by {
                assert(s.push(x).drop_last() =~= s);
                assert(s.push(x).last() == x);
                if p == d.id {
                    lemma_colsum_absent(s, p);
                }
            }
        } else {
            assert forall|p: Seq<char>| true implies #[trigger] colsum(merge_card(s, d), p) == (
            if p == d.id {
                let t2 = colsum(s, d.id) + d.quantity;
                if t2 < 0 {
                    0
                } else {
                    t2
                }
            } else {
                colsum(s, p)
            }) by {
                if p == d.id {
                    lemma_colsum_absent(s, p);
                }
            }
        }
    }
}

/// A positive delta for a print identifier with no ledger row appends a
/// new row holding exactly that quantity.
pub proof fn lemma_merge_introduces(s: Seq<(u32, OwnedCardV)>, d: CardV)
    requires
        col_wf(s),
        forall|j: int| 0 <= j < s.len() ==> (#[trigger] s[j]).1.pid != d.id,
        0 < d.quantity,
    ensures
        merge_card(s, d) == s.push(
            (d.quantity as u32, OwnedCardV { pid: d.id, var: Seq::<Seq<char>>::empty() }),
        ),
        col_wf(merge_card(s, d)),
{
    lemma_col_index_from_scan(s, d.id, s.len() as int);
    lemma_merge_card_wf(s, d);
}

/// A delta that drives an existing row's quantity to exactly zero removes
/// the row.
pub proof fn lemma_merge_removes(s: Seq<(u32, OwnedCardV)>, d: CardV, i: int)
    requires
        col_wf(s),
        0 <= i < s.len(),
        s[i].1.pid == d.id,
        s[i].0 <= 0x7FFF_FFFF,
        d.quantity as int == -(s[i].0 as int),
    ensures
        merge_card(s, d) == s.remove(i),
        col_wf(merge_card(s, d)),
{
    assert(forall|j: int| 0 <= j < i ==> (#[trigger] s[j]).1.pid != d.id);
    lemma_col_index_from_scan(s, d.id, i);
    assert(as_signed_u32(s[i].0) == s[i].0);
    lemma_merge_card_wf(s, d);
}

/// The total quantity a pile carries, all identifiers together.
pub open spec fn pqsum(cs: Seq<CardV>) -> int
    decreases cs.len(),
{
    if cs.len() == 0 {
        0
    } else {
        cs[0].quantity + pqsum(cs.drop_first())
    }
}

pub proof fn lemma_pilesum_nonneg(cs: Seq<CardV>, p: Seq<char>)
    requires
        forall|i: int| 0 <= i < cs.len() ==> 0 < (#[trigger] cs[i]).quantity,
    ensures
        pilesum(cs, p) >= 0,
    decreases cs.len(),
{
    if cs.len() > 0 {
        assert(forall|i: int|
            0 <= i < cs.len() - 1 ==> #[trigger] cs.drop_first()[i] == cs[i + 1]);
        lemma_pilesum_nonneg(cs.drop_first(), p);
    }
}

pub proof fn lemma_pilesum_le_total(cs: Seq<CardV>, p: Seq<char>)
    requires
        forall|i: int| 0 <= i < cs.len() ==> 0 < (#[trigger] cs[i]).quantity,
    ensures
        0 <= pilesum(cs, p) <= pqsum(cs),
    decreases cs.len(),
{
    if cs.len() > 0 {
        assert(forall|i: int|
            0 <= i < cs.len() - 1 ==> #[trigger] cs.drop_first()[i] == cs[i + 1]);
        lemma_pilesum_le_total(cs.drop_first(), p);
    }
}

/// Merging a pile of strictly positive deltas adds the pile's totals onto
/// the ledger's totals, identifier by identifier; nothing clamps and
/// nothing is removed.
pub proof fn lemma_merge_positive(s: Seq<(u32, OwnedCardV)>, cs: Seq<CardV>)
    requires
        col_wf(s),
        forall|i: int| 0 <= i < cs.len() ==> 0 < (#[trigger] cs[i]).quantity,
        forall|p: Seq<char>| #[trigger] colsum(s, p) + pilesum(cs, p) <= 0x7FFF_FFFF,
    ensures
        col_wf(merge_pile(s, cs)),
        forall|p: Seq<char>|
            #[trigger] colsum(merge_pile(s, cs), p) == colsum(s, p) + pilesum(cs, p),
    decreases cs.len(),
{
    if cs.len() == 0 {
    } else {
        let d = cs[0];
        let rest = cs.drop_first();
        assert(forall|i: int| 0 <= i < rest.len() ==> #[trigger] rest[i] == cs[i + 1]);
        assert(forall|p: Seq<char>|
            #[trigger] pilesum(cs, p) == (if d.id == p {
                d.quantity as int
            } else {
                0
            }) + pilesum(rest, p));
        lemma_colsum_nonneg(s, d.id);
        lemma_pilesum_nonneg(rest, d.id);
        assert(colsum(s, d.id) + pilesum(cs, d.id) <= 0x7FFF_FFFF);
        lemma_merge_card_sum(s, d);
        let s2 = merge_card(s, d);
        assert(colsum(s2, d.id) == colsum(s, d.id) + d.quantity);
        assert forall|p: Seq<char>| true implies #[trigger] colsum(s2, p) + pilesum(rest, p)
            <= 0x7FFF_FFFF by {
            assert(colsum(s, p) + pilesum(cs, p) <= 0x7FFF_FFFF);
        }
        lemma_merge_positive(s2, rest);
        assert forall|p: Seq<char>| true implies #[trigger] colsum(merge_pile(s, cs), p) == colsum(
            s,
            p,
        ) + pilesum(cs, p) by {
            assert(merge_pile(s, cs) == merge_pile(s2, rest));
            assert(colsum(merge_pile(s2, rest), p) == colsum(s2, p) + pilesum(rest, p));
        }
    }
}

proof fn lemma_pqsum_snoc(cs: Seq<CardV>, x: CardV)
    ensures
        pqsum(cs.push(x)) == pqsum(cs) + x.quantity,
    decreases cs.len(),
{
    if cs.len() == 0 {
        assert(cs.push(x)[0] == x);
        assert(cs.push(x).drop_first() =~= Seq::<CardV>::empty());
        assert(pqsum(Seq::<CardV>::empty()) == 0);
    } else {
        assert(cs.push(x)[0] == cs[0]);
        assert(cs.push(x).drop_first() =~= cs.drop_first().push(x));
        lemma_pqsum_snoc(cs.drop_first(), x);
    }
}

/// In a pile whose identifiers are pairwise distinct, the total for an
/// identifier is the one matching delta, or nothing.
pub proof fn lemma_pilesum_distinct_ids(cs: Seq<CardV>, p: Seq<char>)
    requires
        forall|i: int, j: int|
            0 <= i < j < cs.len() ==> (#[trigger] cs[i]).id != (#[trigger] cs[j]).id,
    ensures
        forall|i: int|
            0 <= i < cs.len() && (#[trigger] cs[i]).id == p ==> pilesum(cs, p)
                == cs[i].quantity,
        (forall|i: int| 0 <= i < cs.len() ==> (#[trigger] cs[i]).id != p) ==> pilesum(cs, p)
            == 0,
    decreases cs.len(),
{
    if cs.len() > 0 {
        let rest = cs.drop_first();
        assert(forall|i: int| 0 <= i < rest.len() ==> #[trigger] rest[i] == cs[i + 1]);
        lemma_pilesum_distinct_ids(rest, p);
        assert forall|i: int| 0 <= i < cs.len() && (#[trigger] cs[i]).id == p implies pilesum(
            cs,
            p,
        ) == cs[i].quantity by {
            if i == 0 {
                assert(forall|j: int|
                    0 <= j < rest.len() ==> (#[trigger] rest[j]).id != p);
            } else {
                assert(cs[0].id != p);
                assert(rest[i - 1] == cs[i]);
            }
        }
    }
}

/// Merging a pile whose identifiers are pairwise distinct: each mentioned
/// identifier is clamped once against its delta, everything else stays.
pub proof fn lemma_merge_pile_distinct(s: Seq<(u32, OwnedCardV)>, cs: Seq<CardV>)
    requires
        col_wf(s),
        forall|i: int, j: int|
            0 <= i < j < cs.len() ==> (#[trigger] cs[i]).id != (#[trigger] cs[j]).id,
        forall|i: int|
            0 <= i < cs.len() ==> colsum(s, (#[trigger] cs[i]).id) <= 0x7FFF_FFFF && colsum(
                s,
                cs[i].id,
            ) + cs[i].quantity <= 0x7FFF_FFFF,
    ensures
        col_wf(merge_pile(s, cs)),
        forall|i: int|
            0 <= i < cs.len() ==> #[trigger] colsum(merge_pile(s, cs), cs[i].id) == (if colsum(
                s,
                cs[i].id,
            ) + cs[i].quantity < 0 {
                0
            } else {
                colsum(s, cs[i].id) + cs[i].quantity
            }),
        forall|p: Seq<char>|
            (forall|i: int| 0 <= i < cs.len() ==> (#[trigger] cs[i]).id != p)
                ==> #[trigger] colsum(merge_pile(s, cs), p) == colsum(s, p),
    decreases cs.len(),
{
    if cs.len() > 0 {
        let d = cs[0];
        let rest = cs.drop_first();
        assert(forall|i: int| 0 <= i < rest.len() ==> #[trigger] rest[i] == cs[i + 1]);
        lemma_merge_card_sum(s, d);
        let s2 = merge_card(s, d);
        assert forall|i: int| 0 <= i < rest.len() implies colsum(s2, (#[trigger] rest[i]).id)
            == colsum(s, rest[i].id) by {
            assert(rest[i].id != d.id);
        }
        lemma_merge_pile_distinct(s2, rest);
        assert(merge_pile(s, cs) == merge_pile(s2, rest));
        assert(colsum(merge_pile(s2, rest), d.id) == colsum(s2, d.id)) by {
            assert(forall|i: int| 0 <= i < rest.len() ==> (#[trigger] rest[i]).id != d.id);
        }
        assert forall|i: int| 0 <= i < cs.len() implies #[trigger] colsum(
            merge_pile(s, cs),
            cs[i].id,
        ) == (if colsum(s, cs[i].id) + cs[i].quantity < 0 {
            0
        } else {
            colsum(s, cs[i].id) + cs[i].quantity
        }) by {
            if i == 0 {
            } else {
                assert(rest[i - 1] == cs[i]);
                assert(colsum(s2, cs[i].id) == colsum(s, cs[i].id));
            }
        }
    }
}

/// The card one document entry resolves to.
pub open spec fn line_card(l: LineV, m: Map<Seq<char>, Seq<char>>) -> CardV {
    CardV { quantity: l.quantity, id: m[resolve_key(l)], gvars: l.gvars, lvars: l.lvars }
}

/// The pile a whole document resolves to, entry by entry in order.
pub open spec fn pile_of(d: Seq<LineV>, m: Map<Seq<char>, Seq<char>>) -> Seq<CardV> {
    Seq::new(d.len(), |i: int| line_card(d[i], m))
}

/// A resolved pile carries exactly the document's total quantity.
pub proof fn lemma_pqsum_pile_of(d: Seq<LineV>, m: Map<Seq<char>, Seq<char>>)
    ensures
        pqsum(pile_of(d, m)) == cdif::qsum(d),
    decreases d.len(),
{
    if d.len() == 0 {
        assert(pile_of(d, m) =~= Seq::<CardV>::empty());
    } else {
        assert(forall|i: int|
            0 <= i < d.len() - 1 ==> #[trigger] d.drop_last()[i] == d[i]);
        lemma_pqsum_pile_of(d.drop_last(), m);
        assert(pile_of(d, m) =~= pile_of(d.drop_last(), m).push(line_card(d.last(), m)));
        lemma_pqsum_snoc(pile_of(d.drop_last(), m), line_card(d.last(), m));
    }
}

/// When every identity resolves, resolution yields exactly the mapped
/// pile.
pub proof fn lemma_resolve_doc_is_pile_of(d: Seq<LineV>, m: Map<Seq<char>, Seq<char>>)
    requires
        forall|i: int| 0 <= i < d.len() ==> m.contains_key(resolve_key(#[trigger] d[i])),
    ensures
        resolve_doc(d, m) == Some(pile_of(d, m)),
    decreases d.len(),
{
    if d.len() == 0 {
        assert(pile_of(d, m) =~= Seq::<CardV>::empty());
    } else {
        assert(forall|i: int|
            0 <= i < d.len() - 1 ==> #[trigger] d.drop_last()[i] == d[i]);
        lemma_resolve_doc_is_pile_of(d.drop_last(), m);
        assert(pile_of(d, m) =~= pile_of(d.drop_last(), m).push(line_card(d.last(), m)));
    }
}

/// The ledger a document builds when merged from nothing.
pub open spec fn ledger_from(d: Seq<LineV>, m: Map<Seq<char>, Seq<char>>) -> Seq<
    (u32, OwnedCardV),
> {
    merge_pile(Seq::empty(), pile_of(d, m))
}

/// Print-specific boolean attributes, packed into a short string of
/// one-character codes.
pub struct Flags {
    pub full_art: bool,
    pub oversized: bool,
    pub reprint: bool,
    pub reserved: bool,
    pub variation: bool,
    pub story_spotlight: bool,
    pub rarity: String,
}

/// The packed encoding of a set of flags: one fixed character per set
/// flag, then a digit for the rarity.
pub open spec fn flags_packed(f: Flags) -> Seq<char> {
    let s = Seq::<char>::empty();
    let s = if f.full_art { s.push('^') } else { s };
    let s = if f.oversized { s.push('O') } else { s };
    let s = if f.reprint { s.push('+') } else { s };
    let s = if f.reserved { s.push('!') } else { s };
    let s = if f.variation { s.push('~') } else { s };
    let s = if f.story_spotlight { s.push('@') } else { s };
    let s = if f.rarity@ == "common"@ { s.push('1') } else if f.rarity@ == "uncommon"@ { s.push('2') } else if f.rarity@ == "rare"@ { s.push('3') } else if f.rarity@ == "mythic"@ { s.push('4') } else { s };
    s
}

impl Flags {
    pub fn pack(&self) -> (r: String)
        ensures
            r@ == flags_packed(*self),
    {
        let mut s = String::new();
        let ghost mut acc: Seq<char> = Seq::<char>::empty();
        if self.full_art {
            push_char(&mut s, '^');
        }
        proof {
            acc = if self.full_art { acc.push('^') } else { acc };
            assert(s@ == acc);
        }
        if self.oversized {
            push_char(&mut s, 'O');
        }
        proof {
            acc = if self.oversized { acc.push('O') } else { acc };
            assert(s@ == acc);
        }
        if self.reprint {
            push_char(&mut s, '+');
        }
        proof {
            acc = if self.reprint { acc.push('+') } else { acc };
            assert(s@ == acc);
        }
        if self.reserved {
            push_char(&mut s, '!');
        }
        proof {
            acc = if self.reserved { acc.push('!') } else { acc };
            assert(s@ == acc);
        }
        if self.variation {
            push_char(&mut s, '~');
        }
        proof {
            acc = if self.variation { acc.push('~') } else { acc };
            assert(s@ == acc);
        }
        if self.story_spotlight {
            push_char(&mut s, '@');
        }
        proof {
            acc = if self.story_spotlight { acc.push('@') } else { acc };
            assert(s@ == acc);
        }
        if str_eq(self.rarity.as_str(), "common") {
            push_char(&mut s, '1');
        } else if str_eq(self.rarity.as_str(), "uncommon") {
            push_char(&mut s, '2');
        } else if str_eq(self.rarity.as_str(), "rare") {
            push_char(&mut s, '3');
        } else if str_eq(self.rarity.as_str(), "mythic") {
            push_char(&mut s, '4');
        }
        proof {
            acc = if self.rarity@ == "common"@ { acc.push('1') } else if self.rarity@ == "uncommon"@ { acc.push('2') } else if self.rarity@ == "rare"@ { acc.push('3') } else if self.rarity@ == "mythic"@ { acc.push('4') } else { acc };
            assert(s@ == acc);
        }
        proof {
            assert(acc == flags_packed(*self));
        }
        s
    }
}

/// Frame treatments and the frame year, packed the same way.
pub struct Frame {
    pub legendary: bool,
    pub miracle: bool,
    pub nyx_touched: bool,
    pub draft: bool,
    pub devoid: bool,
    pub tombstone: bool,
    pub color_shifted: bool,
    pub showcase: bool,
    pub compass: bool,
    pub extended_art: bool,
    pub companion: bool,
    pub frame: String,
}

/// The packed encoding of a frame: one fixed character per treatment, then
/// a code for the frame year.
pub open spec fn frame_packed(f: Frame) -> Seq<char> {
    let s = Seq::<char>::empty();
    let s = if f.legendary { s.push('L') } else { s };
    let s = if f.miracle { s.push('m') } else { s };
    let s = if f.nyx_touched { s.push('n') } else { s };
    let s = if f.draft { s.push('D') } else { s };
    let s = if f.devoid { s.push('d') } else { s };
    let s = if f.tombstone { s.push('t') } else { s };
    let s = if f.color_shifted { s.push('$') } else { s };
    let s = if f.showcase { s.push('s') } else { s };
    let s = if f.compass { s.push('c') } else { s };
    let s = if f.extended_art { s.push('+') } else { s };
    let s = if f.companion { s.push('C') } else { s };
    let s = if f.frame@ == "1993"@ { s.push('3') } else if f.frame@ == "1997"@ { s.push('7') } else if f.frame@ == "2003"@ { s.push('M') } else if f.frame@ == "2015"@ { s.push('N') } else if f.frame@ == "future"@ { s.push('F') } else { s };
    s
}

impl Frame {
    pub fn pack(&self) -> (r: String)
        ensures
            r@ == frame_packed(*self),
    {
        let mut s = String::new();
        let ghost mut acc: Seq<char> = Seq::<char>::empty();
        if self.legendary {
            push_char(&mut s, 'L');
        }
        proof {
            acc = if self.legendary { acc.push('L') } else { acc };
            assert(s@ == acc);
        }
        if self.miracle {
            push_char(&mut s, 'm');
        }
        proof {
            acc = if self.miracle { acc.push('m') } else { acc };
            assert(s@ == acc);
        }
        if self.nyx_touched {
            push_char(&mut s, 'n');
        }
        proof {
            acc = if self.nyx_touched { acc.push('n') } else { acc };
            assert(s@ == acc);
        }
        if self.draft {
            push_char(&mut s, 'D');
        }
        proof {
            acc = if self.draft { acc.push('D') } else { acc };
            assert(s@ == acc);
        }
        if self.devoid {
            push_char(&mut s, 'd');
        }
        proof {
            acc = if self.devoid { acc.push('d') } else { acc };
            assert(s@ == acc);
        }
        if self.tombstone {
            push_char(&mut s, 't');
        }
        proof {
            acc = if self.tombstone { acc.push('t') } else { acc };
            assert(s@ == acc);
        }
        if self.color_shifted {
            push_char(&mut s, '$');
        }
        proof {
            acc = if self.color_shifted { acc.push('$') } else { acc };
            assert(s@ == acc);
        }
        if self.showcase {
            push_char(&mut s, 's');
        }
        proof {
            acc = if self.showcase { acc.push('s') } else { acc };
            assert(s@ == acc);
        }
        if self.compass {
            push_char(&mut s, 'c');
        }
        proof {
            acc = if self.compass { acc.push('c') } else { acc };
            assert(s@ == acc);
        }
        if self.extended_art {
            push_char(&mut s, '+');
        }
        proof {
            acc = if self.extended_art { acc.push('+') } else { acc };
            assert(s@ == acc);
        }
        if self.companion {
            push_char(&mut s, 'C');
        }
        proof {
            acc = if self.companion { acc.push('C') } else { acc };
            assert(s@ == acc);
        }
        if str_eq(self.frame.as_str(), "1993") {
            push_char(&mut s, '3');
        } else if str_eq(self.frame.as_str(), "1997") {
            push_char(&mut s, '7');
        } else if str_eq(self.frame.as_str(), "2003") {
            push_char(&mut s, 'M');
        } else if str_eq(self.frame.as_str(), "2015") {
            push_char(&mut s, 'N');
        } else if str_eq(self.frame.as_str(), "future") {
            push_char(&mut s, 'F');
        }
        proof {
            acc = if self.frame@ == "1993"@ { acc.push('3') } else if self.frame@ == "1997"@ { acc.push('7') } else if self.frame@ == "2003"@ { acc.push('M') } else if self.frame@ == "2015"@ { acc.push('N') } else if self.frame@ == "future"@ { acc.push('F') } else { acc };
            assert(s@ == acc);
        }
        proof {
            assert(acc == frame_packed(*self));
        }
        s
    }
}

/// Per-format legality, packed into one character per legal format.
pub struct Legality {
    pub brawl: bool,
    pub commander: bool,
    pub duel: bool,
    pub frontier: bool,
    pub future: bool,
    pub historic: bool,
    pub legacy: bool,
    pub modern: bool,
    pub old_school: bool,
    pub pauper: bool,
    pub penny: bool,
    pub pioneer: bool,
    pub standard: bool,
    pub vintage: bool,
}

/// The packed legality string: one fixed character per legal format.
pub open spec fn legality_packed(f: Legality) -> Seq<char> {
    let s = Seq::<char>::empty();
    let s = if f.brawl { s.push('B') } else { s };
    let s = if f.commander { s.push('E') } else { s };
    let s = if f.duel { s.push('d') } else { s };
    let s = if f.frontier { s.push('j') } else { s };
    let s = if f.future { s.push('f') } else { s };
    let s = if f.historic { s.push('h') } else { s };
    let s = if f.legacy { s.push('l') } else { s };
    let s = if f.modern { s.push('m') } else { s };
    let s = if f.old_school { s.push('o') } else { s };
    let s = if f.pauper { s.push('P') } else { s };
    let s = if f.penny { s.push('$') } else { s };
    let s = if f.pioneer { s.push('p') } else { s };
    let s = if f.standard { s.push('s') } else { s };
    let s = if f.vintage { s.push('v') } else { s };
    s
}

impl Legality {
    #[verifier::rlimit(100)]
    pub fn pack(&self) -> (r: String)
        ensures
            r@ == legality_packed(*self),
    {
        let mut s = String::new();
        let ghost mut acc: Seq<char> = Seq::<char>::empty();
        if self.brawl {
            push_char(&mut s, 'B');
        }
        proof {
            acc = if self.brawl { acc.push('B') } else { acc };
            assert(s@ == acc);
        }
        if self.commander {
            push_char(&mut s, 'E');
        }
        proof {
            acc = if self.commander { acc.push('E') } else { acc };
            assert(s@ == acc);
        }
        if self.duel {
            push_char(&mut s, 'd');
        }
        proof {
            acc = if self.duel { acc.push('d') } else { acc };
            assert(s@ == acc);
        }
        if self.frontier {
            push_char(&mut s, 'j');
        }
        proof {
            acc = if self.frontier { acc.push('j') } else { acc };
            assert(s@ == acc);
        }
        if self.future {
            push_char(&mut s, 'f');
        }
        proof {
            acc = if self.future { acc.push('f') } else { acc };
            assert(s@ == acc);
        }
        if self.historic {
            push_char(&mut s, 'h');
        }
        proof {
            acc = if self.historic { acc.push('h') } else { acc };
            assert(s@ == acc);
        }
        if self.legacy {
            push_char(&mut s, 'l');
        }
        proof {
            acc = if self.legacy { acc.push('l') } else { acc };
            assert(s@ == acc);
        }
        if self.modern {
            push_char(&mut s, 'm');
        }
        proof {
            acc = if self.modern { acc.push('m') } else { acc };
            assert(s@ == acc);
        }
        if self.old_school {
            push_char(&mut s, 'o');
        }
        proof {
            acc = if self.old_school { acc.push('o') } else { acc };
            assert(s@ == acc);
        }
        if self.pauper {
            push_char(&mut s, 'P');
        }
        proof {
            acc = if self.pauper { acc.push('P') } else { acc };
            assert(s@ == acc);
        }
        if self.penny {
            push_char(&mut s, '$');
        }
        proof {
            acc = if self.penny { acc.push('$') } else { acc };
            assert(s@ == acc);
        }
        if self.pioneer {
            push_char(&mut s, 'p');
        }
        proof {
            acc = if self.pioneer { acc.push('p') } else { acc };
            assert(s@ == acc);
        }
        if self.standard {
            push_char(&mut s, 's');
        }
        proof {
            acc = if self.standard { acc.push('s') } else { acc };
            assert(s@ == acc);
        }
        if self.vintage {
            push_char(&mut s, 'v');
        }
        proof {
            acc = if self.vintage { acc.push('v') } else { acc };
            assert(s@ == acc);
        }
        proof {
            assert(acc == legality_packed(*self));
        }
        s
    }
}

/// One printing of a card, as the catalog describes it.
pub struct PrintCard {
    pub id: String,
    pub oid: String,
    pub illustration: String,
    pub artist: String,
    pub number: String,
    pub flavor: String,
    pub border: String,
    pub layout: String,
    pub flags: Flags,
    pub frame: Frame,
}

} // verus!
