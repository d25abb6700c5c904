//! The diff/merge composition law: merging the diff of two documents onto
//! a ledger built from the first reproduces the ledger built from the
//! second, print identifier by print identifier.

use vstd::prelude::*;

use crate::card::colsum;
use crate::card::ledger_from;
use crate::card::lemma_colsum_nonneg;
use crate::card::lemma_merge_pile_distinct;
use crate::card::lemma_merge_positive;
use crate::card::lemma_pilesum_distinct_ids;
use crate::card::lemma_pilesum_le_total;
use crate::card::lemma_pqsum_pile_of;
use crate::card::line_card;
use crate::card::merge_pile;
use crate::card::pile_of;
use crate::card::pilesum;
use crate::card::resolve_key;
use crate::cdif::b_only;
use crate::cdif::diff_first;
use crate::cdif::doc_diff;
use crate::cdif::doc_distinct;
use crate::cdif::doc_has;
use crate::cdif::doc_index;
use crate::cdif::doc_qty_i32;
use crate::cdif::lemma_b_only_covers;
use crate::cdif::lemma_b_only_entries;
use crate::cdif::lemma_diff_first_covers;
use crate::cdif::lemma_diff_first_entries;
use crate::cdif::lemma_doc_diff_distinct;
use crate::cdif::lemma_doc_entry_qty;
use crate::cdif::lemma_doc_has_concat;
use crate::cdif::lemma_doc_has_entry;
use crate::cdif::lemma_doc_index_range;
use crate::cdif::lemma_qsum_bounds;
use crate::cdif::line_id;
use crate::cdif::payload_eq;
use crate::cdif::qsum;
use crate::cdif::LineV;
use vstd::wrapping::i32_specs;

verus! {

/// The print identifier a document entry resolves to.
pub open spec fn pid_of(l: LineV, m: Map<Seq<char>, Seq<char>>) -> Seq<char> {
    m[resolve_key(l)]
}

/// What the composition law runs under: two aggregated documents with
/// strictly positive entries, totals small enough for the stored 32-bit
/// arithmetic to be exact, a lookup that covers both, and one print per
/// card identity: any two entries name the same print exactly when they
/// carry the same identity key.
pub open spec fn compose_pre(a: Seq<LineV>, b: Seq<LineV>, m: Map<Seq<char>, Seq<char>>) -> bool {
    &&& doc_distinct(a)
    &&& doc_distinct(b)
    &&& (forall|i: int| 0 <= i < a.len() ==> 0 < (#[trigger] a[i]).quantity)
    &&& (forall|i: int| 0 <= i < b.len() ==> 0 < (#[trigger] b[i]).quantity)
    &&& qsum(a) + qsum(b) <= 0x7FFF_FFFF
    &&& (forall|i: int| 0 <= i < a.len() ==> m.contains_key(resolve_key(#[trigger] a[i])))
    &&& (forall|i: int| 0 <= i < b.len() ==> m.contains_key(resolve_key(#[trigger] b[i])))
    &&& (forall|i: int, j: int|
        0 <= i < a.len() && 0 <= j < a.len() ==> ((line_id(#[trigger] a[i]) == line_id(
            #[trigger] a[j],
        )) <==> (pid_of(a[i], m) == pid_of(a[j], m))))
    &&& (forall|i: int, j: int|
        0 <= i < b.len() && 0 <= j < b.len() ==> ((line_id(#[trigger] b[i]) == line_id(
            #[trigger] b[j],
        )) <==> (pid_of(b[i], m) == pid_of(b[j], m))))
    &&& (forall|i: int, j: int|
        0 <= i < a.len() && 0 <= j < b.len() ==> ((line_id(#[trigger] a[i]) == line_id(
            #[trigger] b[j],
        )) <==> (pid_of(a[i], m) == pid_of(b[j], m))))
}

/// What one diff entry is made of: its signed quantity is the difference
/// of the two stored quantities, its identity appears in one of the two
/// documents, and its print identifier relates to both documents' entries
/// exactly as its identity key does.
proof fn lemma_d_entry(a: Seq<LineV>, b: Seq<LineV>, m: Map<Seq<char>, Seq<char>>, i: int)
    requires
        compose_pre(a, b, m),
        0 <= i < doc_diff(a, b).len(),
    ensures
        m.contains_key(resolve_key(doc_diff(a, b)[i])),
        doc_diff(a, b)[i].quantity == i32_specs::wrapping_sub(
            doc_qty_i32(b, line_id(doc_diff(a, b)[i])),
            doc_qty_i32(a, line_id(doc_diff(a, b)[i])),
        ),
        doc_diff(a, b)[i].quantity != 0,
        doc_has(a, line_id(doc_diff(a, b)[i])) || doc_has(b, line_id(doc_diff(a, b)[i])),
        forall|j: int|
            0 <= j < a.len() ==> ((line_id(#[trigger] a[j]) == line_id(doc_diff(a, b)[i])) <==> (
            pid_of(a[j], m) == pid_of(doc_diff(a, b)[i], m))),
        forall|j: int|
            0 <= j < b.len() ==> ((line_id(#[trigger] b[j]) == line_id(doc_diff(a, b)[i])) <==> (
            pid_of(b[j], m) == pid_of(doc_diff(a, b)[i], m))),
{
    let x = diff_first(a, b);
    let y = b_only(b, a);
    let d = doc_diff(a, b);
    lemma_diff_first_entries(a, b);
    lemma_b_only_entries(b, a);
    if i < x.len() {
        assert(d[i] == x[i]);
        let j0 = choose|j: int|
            {
                let e = x[i];
                &&& 0 <= j < a.len()
                &&& payload_eq(e, #[trigger] a[j])
                &&& e.quantity == i32_specs::wrapping_sub(
                    doc_qty_i32(b, line_id(a[j])),
                    a[j].quantity,
                )
                &&& a[j].quantity == doc_qty_i32(a, line_id(a[j]))
                &&& e.quantity != 0
            };
        assert(line_id(d[i]) == line_id(a[j0]));
        assert(resolve_key(d[i]) == resolve_key(a[j0]));
        lemma_doc_has_entry(a, j0);
        assert forall|j: int| 0 <= j < a.len() implies ((line_id(#[trigger] a[j]) == line_id(
            d[i],
        )) <==> (pid_of(a[j], m) == pid_of(d[i], m))) by {
            assert((line_id(a[j]) == line_id(a[j0])) <==> (pid_of(a[j], m) == pid_of(a[j0], m)));
        }
        assert forall|j: int| 0 <= j < b.len() implies ((line_id(#[trigger] b[j]) == line_id(
            d[i],
        )) <==> (pid_of(b[j], m) == pid_of(d[i], m))) by {
            assert((line_id(a[j0]) == line_id(b[j])) <==> (pid_of(a[j0], m) == pid_of(b[j], m)));
        }
    } else {
        assert(d[i] == y[i - x.len()]);
        let j0 = choose|j: int|
            {
                let e = y[i - x.len()];
                &&& 0 <= j < b.len()
                &&& e == #[trigger] b[j]
                &&& !doc_has(a, line_id(b[j]))
            };
        assert(d[i] == b[j0]);
        lemma_doc_entry_qty(b, j0);
        lemma_doc_has_entry(b, j0);
        let k = line_id(b[j0]);
        assert(doc_qty_i32(a, k) == 0);
        assert(doc_qty_i32(b, k) == b[j0].quantity);
        assert(d[i].quantity == i32_specs::wrapping_sub(doc_qty_i32(b, k), doc_qty_i32(a, k)));
        assert(d[i].quantity != 0);
        assert forall|j: int| 0 <= j < a.len() implies ((line_id(#[trigger] a[j]) == line_id(
            d[i],
        )) <==> (pid_of(a[j], m) == pid_of(d[i], m))) by {
            assert((line_id(a[j]) == line_id(b[j0])) <==> (pid_of(a[j], m) == pid_of(b[j0], m)));
        }
        assert forall|j: int| 0 <= j < b.len() implies ((line_id(#[trigger] b[j]) == line_id(
            d[i],
        )) <==> (pid_of(b[j], m) == pid_of(d[i], m))) by {
            assert((line_id(b[j]) == line_id(b[j0])) <==> (pid_of(b[j], m) == pid_of(b[j0], m)));
        }
    }
}

/// Under one-print-per-identity, a well-formed document resolves to a pile
/// with pairwise-distinct identifiers.
proof fn lemma_pile_ids_distinct(d: Seq<LineV>, m: Map<Seq<char>, Seq<char>>)
    requires
        doc_distinct(d),
        forall|i: int, j: int|
            0 <= i < d.len() && 0 <= j < d.len() ==> ((line_id(#[trigger] d[i]) == line_id(
                #[trigger] d[j],
            )) <==> (pid_of(d[i], m) == pid_of(d[j], m))),
    ensures
        forall|i: int, j: int|
            0 <= i < j < pile_of(d, m).len() ==> (#[trigger] pile_of(d, m)[i]).id != (
            #[trigger] pile_of(d, m)[j]).id,
{
    assert forall|i: int, j: int| 0 <= i < j < pile_of(d, m).len() implies (#[trigger] pile_of(
        d,
        m,
    )[i]).id != (#[trigger] pile_of(d, m)[j]).id by {
        assert(pile_of(d, m)[i] == line_card(d[i], m));
        assert(pile_of(d, m)[j] == line_card(d[j], m));
        assert(line_id(d[i]) != line_id(d[j]));
    }
}

/// The total a document's resolved pile carries against the print of one
/// of its identities is exactly the stored quantity for that identity.
proof fn lemma_contrib_has(d: Seq<LineV>, m: Map<Seq<char>, Seq<char>>, j: int)
    requires
        doc_distinct(d),
        0 <= j < d.len(),
        forall|i: int, x: int|
            0 <= i < d.len() && 0 <= x < d.len() ==> ((line_id(#[trigger] d[i]) == line_id(
                #[trigger] d[x],
            )) <==> (pid_of(d[i], m) == pid_of(d[x], m))),
    ensures
        pilesum(pile_of(d, m), pid_of(d[j], m)) == d[j].quantity,
{
    lemma_pile_ids_distinct(d, m);
    let p = pid_of(d[j], m);
    lemma_pilesum_distinct_ids(pile_of(d, m), p);
    assert(pile_of(d, m)[j] == line_card(d[j], m));
    assert(pile_of(d, m)[j].id == p);
}

/// A print none of a document's identities names gets nothing from its
/// resolved pile.
proof fn lemma_contrib_absent(d: Seq<LineV>, m: Map<Seq<char>, Seq<char>>, p: Seq<char>)
    requires
        doc_distinct(d),
        forall|i: int, x: int|
            0 <= i < d.len() && 0 <= x < d.len() ==> ((line_id(#[trigger] d[i]) == line_id(
                #[trigger] d[x],
            )) <==> (pid_of(d[i], m) == pid_of(d[x], m))),
        forall|i: int| 0 <= i < d.len() ==> pid_of(#[trigger] d[i], m) != p,
    ensures
        pilesum(pile_of(d, m), p) == 0,
{
    lemma_pile_ids_distinct(d, m);
    lemma_pilesum_distinct_ids(pile_of(d, m), p);
    assert forall|i: int| 0 <= i < pile_of(d, m).len() implies (#[trigger] pile_of(d, m)[i]).id
        != p by {
        assert(pile_of(d, m)[i] == line_card(d[i], m));
    }
}

/// A ledger built from a well-formed document holds, against each print,
/// exactly what the document's resolved pile carries against it.
proof fn lemma_ledger_from_sums(d: Seq<LineV>, m: Map<Seq<char>, Seq<char>>)
    requires
        doc_distinct(d),
        forall|i: int| 0 <= i < d.len() ==> 0 < (#[trigger] d[i]).quantity,
        qsum(d) <= 0x7FFF_FFFF,
    ensures
        crate::card::col_wf(ledger_from(d, m)),
        forall|p: Seq<char>|
            #[trigger] colsum(ledger_from(d, m), p) == pilesum(pile_of(d, m), p),
{
    let cs = pile_of(d, m);
    assert forall|i: int| 0 <= i < cs.len() implies 0 < (#[trigger] cs[i]).quantity by {
        assert(cs[i] == line_card(d[i], m));
    }
    lemma_pqsum_pile_of(d, m);
    assert forall|p: Seq<char>| true implies #[trigger] colsum(Seq::<(u32, crate::card::OwnedCardV)>::empty(), p)
        + pilesum(cs, p) <= 0x7FFF_FFFF by {
        lemma_pilesum_le_total(cs, p);
        lemma_qsum_bounds(d);
    }
    lemma_merge_positive(Seq::empty(), cs);
}

/// Merging the diff of two documents onto a ledger built from the first
/// reproduces the ledger built from the second: afterwards every print
/// identifier is owned in exactly the quantity the second document gives
/// it.
pub proof fn lemma_diff_merge_composes(a: Seq<LineV>, b: Seq<LineV>, m: Map<Seq<char>, Seq<char>>)
    requires
        compose_pre(a, b, m),
    ensures
        forall|p: Seq<char>|
            #[trigger] colsum(
                merge_pile(ledger_from(a, m), pile_of(doc_diff(a, b), m)),
                p,
            ) == colsum(ledger_from(b, m), p),
{
    let d = doc_diff(a, b);
    let pd = pile_of(d, m);
    let la = ledger_from(a, m);
    let lb = ledger_from(b, m);
    lemma_doc_diff_distinct(a, b);
    lemma_qsum_bounds(a);
    lemma_qsum_bounds(b);
    lemma_ledger_from_sums(a, m);
    lemma_ledger_from_sums(b, m);
    // the diff pile's identifiers are pairwise distinct
    assert forall|i: int, j: int| 0 <= i < j < pd.len() implies (#[trigger] pd[i]).id != (
    #[trigger] pd[j]).id by {
        lemma_d_entry(a, b, m, i);
        lemma_d_entry(a, b, m, j);
        assert(pd[i] == line_card(d[i], m));
        assert(pd[j] == line_card(d[j], m));
        let k1 = line_id(d[i]);
        let k2 = line_id(d[j]);
        assert(k1 != k2);
        if pid_of(d[i], m) == pid_of(d[j], m) {
            if doc_has(a, k1) {
                let j1 = doc_index(a, k1);
                lemma_doc_index_range(a, k1);
                assert(pid_of(a[j1], m) == pid_of(d[i], m));
                if doc_has(a, k2) {
                    let j2 = doc_index(a, k2);
                    lemma_doc_index_range(a, k2);
                    assert(pid_of(a[j2], m) == pid_of(d[j], m));
                    assert(line_id(a[j1]) == line_id(a[j2]));
                } else {
                    lemma_doc_index_range(b, k2);
                    let j2 = doc_index(b, k2);
                    assert(pid_of(b[j2], m) == pid_of(d[j], m));
                    assert(line_id(a[j1]) == line_id(b[j2]));
                }
            } else {
                lemma_doc_index_range(b, k1);
                let j1 = doc_index(b, k1);
                assert(pid_of(b[j1], m) == pid_of(d[i], m));
                if doc_has(a, k2) {
                    let j2 = doc_index(a, k2);
                    lemma_doc_index_range(a, k2);
                    assert(pid_of(a[j2], m) == pid_of(d[j], m));
                    assert(line_id(a[j2]) == line_id(b[j1]));
                } else {
                    lemma_doc_index_range(b, k2);
                    let j2 = doc_index(b, k2);
                    assert(pid_of(b[j2], m) == pid_of(d[j], m));
                    assert(line_id(b[j1]) == line_id(b[j2]));
                }
            }
        }
    }
    // per-entry value and bound facts for the diff merge
    assert forall|i: int| 0 <= i < pd.len() implies colsum(la, (#[trigger] pd[i]).id)
        == doc_qty_i32(a, line_id(d[i])) && colsum(la, pd[i].id) + pd[i].quantity == doc_qty_i32(
        b,
        line_id(d[i]),
    ) && colsum(la, pd[i].id) <= 0x7FFF_FFFF && colsum(la, pd[i].id) + pd[i].quantity
        <= 0x7FFF_FFFF by {
        lemma_d_entry(a, b, m, i);
        assert(pd[i] == line_card(d[i], m));
        let k = line_id(d[i]);
        let p = pid_of(d[i], m);
        // the first ledger holds the first document's stored quantity
        if doc_has(a, k) {
            let j1 = doc_index(a, k);
            lemma_doc_index_range(a, k);
            assert(pid_of(a[j1], m) == p);
            lemma_contrib_has(a, m, j1);
            assert(colsum(la, p) == a[j1].quantity);
            assert(doc_qty_i32(a, k) == a[j1].quantity);
        } else {
            assert forall|j: int| 0 <= j < a.len() implies pid_of(#[trigger] a[j], m) != p by {
                if pid_of(a[j], m) == p {
                    assert(line_id(a[j]) == k);
                    lemma_doc_has_entry(a, j);
                }
            }
            lemma_contrib_absent(a, m, p);
            assert(doc_qty_i32(a, k) == 0);
        }
        // the delta is the exact signed difference
        assert(0 <= doc_qty_i32(a, k) <= qsum(a)) by {
            if doc_has(a, k) {
                lemma_doc_index_range(a, k);
            }
        }
        assert(0 <= doc_qty_i32(b, k) <= qsum(b)) by {
            if doc_has(b, k) {
                lemma_doc_index_range(b, k);
            }
        }
        assert(pd[i].quantity == doc_qty_i32(b, k) - doc_qty_i32(a, k));
    }
    lemma_merge_pile_distinct(la, pd);
    let fin = merge_pile(la, pd);
    assert forall|p: Seq<char>| true implies #[trigger] colsum(fin, p) == colsum(lb, p) by {
        if exists|i: int| 0 <= i < pd.len() && (#[trigger] pd[i]).id == p {
            let i = choose|i: int| 0 <= i < pd.len() && (#[trigger] pd[i]).id == p;
            lemma_d_entry(a, b, m, i);
            assert(pd[i] == line_card(d[i], m));
            let k = line_id(d[i]);
            assert(colsum(fin, p) == colsum(la, p) + pd[i].quantity) by {
                lemma_colsum_nonneg(la, p);
                assert(colsum(la, p) + pd[i].quantity == doc_qty_i32(b, k));
                assert(doc_qty_i32(b, k) >= 0) by {
                    if doc_has(b, k) {
                        lemma_doc_index_range(b, k);
                    }
                }
            }
            // the second ledger holds the second document's quantity
            if doc_has(b, k) {
                let j2 = doc_index(b, k);
                lemma_doc_index_range(b, k);
                assert(pid_of(b[j2], m) == p);
                lemma_contrib_has(b, m, j2);
                assert(colsum(lb, p) == doc_qty_i32(b, k));
            } else {
                assert forall|j: int| 0 <= j < b.len() implies pid_of(#[trigger] b[j], m)
                    != p by {
                    if pid_of(b[j], m) == p {
                        assert(line_id(b[j]) == k);
                        lemma_doc_has_entry(b, j);
                    }
                }
                lemma_contrib_absent(b, m, p);
                assert(doc_qty_i32(b, k) == 0);
            }
        } else {
            assert(forall|i: int| 0 <= i < pd.len() ==> (#[trigger] pd[i]).id != p);
            assert(colsum(fin, p) == colsum(la, p));
            if exists|j: int| 0 <= j < a.len() && pid_of(#[trigger] a[j], m) == p {
                let j = choose|j: int| 0 <= j < a.len() && pid_of(#[trigger] a[j], m) == p;
                let k = line_id(a[j]);
                lemma_doc_entry_qty(a, j);
                // the signed difference for this identity must be zero
                assert(doc_qty_i32(b, k) == doc_qty_i32(a, k)) by {
                    assert(0 <= doc_qty_i32(b, k) <= qsum(b)) by {
                        if doc_has(b, k) {
                            lemma_doc_index_range(b, k);
                        }
                    }
                    if i32_specs::wrapping_sub(doc_qty_i32(b, k), doc_qty_i32(a, k)) != 0 {
                        lemma_diff_first_covers(a, b, j);
                        lemma_doc_has_concat(diff_first(a, b), b_only(b, a), k);
                        crate::cdif::lemma_doc_index_range(d, k);
                        let i0 = doc_index(d, k);
                        lemma_d_entry(a, b, m, i0);
                        assert(pid_of(a[j], m) == pid_of(d[i0], m));
                        assert(pile_of(d, m)[i0] == line_card(d[i0], m));
                        assert(pd[i0].id == p);
                    }
                }
                lemma_contrib_has(a, m, j);
                assert(colsum(la, p) == doc_qty_i32(a, k));
                assert(doc_qty_i32(b, k) == a[j].quantity);
                assert(doc_has(b, k)) by {
                    if !doc_has(b, k) {
                        assert(doc_qty_i32(b, k) == 0);
                    }
                }
                let j2 = doc_index(b, k);
                lemma_doc_index_range(b, k);
                assert(pid_of(b[j2], m) == p) by {
                    assert(line_id(a[j]) == line_id(b[j2]));
                }
                lemma_contrib_has(b, m, j2);
                assert(colsum(lb, p) == doc_qty_i32(b, k));
            } else {
                assert(forall|j: int| 0 <= j < a.len() ==> pid_of(#[trigger] a[j], m) != p);
                lemma_contrib_absent(a, m, p);
                assert forall|j: int| 0 <= j < b.len() implies pid_of(#[trigger] b[j], m)
                    != p by {
                    if pid_of(b[j], m) == p {
                        let k = line_id(b[j]);
                        lemma_doc_entry_qty(b, j);
                        assert(!doc_has(a, k)) by {
                            if doc_has(a, k) {
                                let j1 = doc_index(a, k);
                                lemma_doc_index_range(a, k);
                                assert(line_id(a[j1]) == line_id(b[j]));
                                assert(pid_of(a[j1], m) == p);
                            }
                        }
                        lemma_b_only_covers(b, a, j);
                        lemma_doc_has_concat(diff_first(a, b), b_only(b, a), k);
                        crate::cdif::lemma_doc_index_range(d, k);
                        let i0 = doc_index(d, k);
                        lemma_d_entry(a, b, m, i0);
                        assert(pid_of(b[j], m) == pid_of(d[i0], m));
                        assert(pile_of(d, m)[i0] == line_card(d[i0], m));
                        assert(pd[i0].id == p);
                    }
                }
                lemma_contrib_absent(b, m, p);
            }
        }
    }
}

} // verus!
