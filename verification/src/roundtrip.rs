//! The round-trip law of the line format: the canonical re-serialization
//! of any parsed, non-blank line parses back to exactly the same line.
//!
//! Blank and comment-only lines are the one exception: they parse to the
//! no-op line (quantity 0, empty set and name), whose rendering `"0x  "`
//! is not itself a statement of the grammar.

use vstd::prelude::*;

use crate::parser::acc10;
use crate::parser::digit_of;
use crate::parser::fsm_finish;
use crate::parser::fsm_init;
use crate::parser::fsm_run;
use crate::parser::fsm_step;
use crate::parser::gvars_rendered;
use crate::parser::lemma_run_app;
use crate::parser::lemma_run_snoc;
use crate::parser::lvar_rendered;
use crate::parser::lvars_rendered;
use crate::parser::spec_dec;
use crate::parser::spec_parse;
use crate::parser::spec_render;
use crate::parser::spec_trim_end;
use crate::parser::FsmV;
use crate::parser::LineV;
use crate::text::spec_is_alnum;
use crate::text::spec_is_digit;
use crate::text::spec_is_space;
use vstd::arithmetic::div_mod::lemma_fundamental_div_mod;
use vstd::arithmetic::div_mod::lemma_small_mod;

verus! {

/// A sequence of ASCII letters and digits.
pub open spec fn all_alnum(s: Seq<char>) -> bool {
    forall|i: int| 0 <= i < s.len() ==> spec_is_alnum(#[trigger] s[i])
}

/// What a name token may hold: anything but a comment or variant marker.
pub open spec fn oracle_chars(s: Seq<char>) -> bool {
    forall|i: int| 0 <= i < s.len() ==> #[trigger] s[i] != '#' && s[i] != '|'
}

/// What a local-variant value may hold: anything but the closing paren.
pub open spec fn value_chars(s: Seq<char>) -> bool {
    forall|i: int| 0 <= i < s.len() ==> #[trigger] s[i] != ')'
}

/// The lines the parser can produce, other than the blank no-op line: a
/// non-empty alphanumeric set code; a name that starts alphanumeric, holds
/// no comment or variant marker, and does not end in whitespace; non-empty
/// alphanumeric qualifier tokens; and key/value pairs with alphanumeric
/// keys and paren-free values that start alphanumeric.
pub open spec fn wf_line(l: LineV) -> bool {
    &&& l.set.len() > 0
    &&& all_alnum(l.set)
    &&& l.oracle.len() > 0
    &&& spec_is_alnum(l.oracle[0])
    &&& oracle_chars(l.oracle)
    &&& !spec_is_space(l.oracle.last())
    &&& forall|i: int|
        0 <= i < l.gvars.len() ==> (#[trigger] l.gvars[i]).len() > 0 && all_alnum(l.gvars[i])
    &&& forall|i: int|
        0 <= i < l.lvars.len() ==> {
            let kv = #[trigger] l.lvars[i];
            &&& kv.0.len() > 0
            &&& all_alnum(kv.0)
            &&& kv.1.len() > 0
            &&& spec_is_alnum(kv.1[0])
            &&& value_chars(kv.1)
        }
}

/// Digit characters are digits, with the expected value.
proof fn lemma_digit_of(d: u32)
    requires
        d < 10,
    ensures
        spec_is_digit(digit_of(d)),
        digit_of(d) as u32 == 48 + d,
{
}

/// Running the machine over the decimal rendering of `n` from the start
/// state reads the whole quantity back.
proof fn lemma_run_digits(n: u32)
    ensures
        fsm_run(fsm_init(), spec_dec(n)) == Some(FsmV { st: 1, quantity: n, ..fsm_init() }),
    decreases n,
{
    if n < 10 {
        lemma_digit_of(n);
        let c = digit_of(n);
        assert(spec_dec(n) =~= Seq::<char>::empty().push(c));
        lemma_run_snoc(fsm_init(), Seq::<char>::empty(), c);
        assert(fsm_step(fsm_init(), c) == Some(
            FsmV { st: 1, quantity: (c as u32 - 48) as u32, ..fsm_init() },
        ));
    } else {
        lemma_run_digits(n / 10);
        lemma_digit_of(n % 10);
        let c = digit_of(n % 10);
        assert(spec_dec(n) == spec_dec(n / 10).push(c));
        lemma_run_snoc(fsm_init(), spec_dec(n / 10), c);
        let p = FsmV { st: 1, quantity: n / 10, ..fsm_init() };
        assert(fsm_step(p, c) == Some(FsmV { quantity: acc10(n / 10, c), ..p }));
        assert(acc10(n / 10, c) == n) by {
            assert((n / 10) * 10 + (c as u32 - 48) == n) by {
                lemma_fundamental_div_mod(n as int, 10);
            }
            lemma_small_mod(n as nat, 0x1_0000_0000nat);
        }
    }
}

/// From inside the set code, alphanumeric characters extend the set code.
proof fn lemma_run_set(p: FsmV, cs: Seq<char>)
    requires
        p.st == 4,
        all_alnum(cs),
    ensures
        fsm_run(p, cs) == Some(FsmV { set: p.set + cs, ..p }),
    decreases cs.len(),
{
    if cs.len() == 0 {
        assert(p.set + cs =~= p.set);
        assert(FsmV { set: p.set + cs, ..p } == p);
    } else {
        let c = cs[0];
        assert(spec_is_alnum(c));
        let q = FsmV { set: p.set.push(c), ..p };
        assert(fsm_step(p, c) == Some(q));
        assert(all_alnum(cs.drop_first())) by {
            assert(forall|i: int|
                0 <= i < cs.len() - 1 ==> #[trigger] cs.drop_first()[i] == cs[i + 1]);
        }
        lemma_run_set(q, cs.drop_first());
        assert(p.set.push(c) + cs.drop_first() =~= p.set + cs);
    }
}

/// From inside the name, anything but `#` and `|` extends the name.
proof fn lemma_run_oracle(p: FsmV, cs: Seq<char>)
    requires
        p.st == 6,
        oracle_chars(cs),
    ensures
        fsm_run(p, cs) == Some(FsmV { oracle: p.oracle + cs, ..p }),
    decreases cs.len(),
{
    if cs.len() == 0 {
        assert(p.oracle + cs =~= p.oracle);
        assert(FsmV { oracle: p.oracle + cs, ..p } == p);
    } else {
        let c = cs[0];
        let q = FsmV { oracle: p.oracle.push(c), ..p };
        assert(fsm_step(p, c) == Some(q));
        assert(oracle_chars(cs.drop_first())) by {
            assert(forall|i: int|
                0 <= i < cs.len() - 1 ==> #[trigger] cs.drop_first()[i] == cs[i + 1]);
        }
        lemma_run_oracle(q, cs.drop_first());
        assert(p.oracle.push(c) + cs.drop_first() =~= p.oracle + cs);
    }
}

/// From inside a qualifier token, alphanumerics extend the token.
proof fn lemma_run_gvar(p: FsmV, cs: Seq<char>)
    requires
        p.st == 8,
        all_alnum(cs),
    ensures
        fsm_run(p, cs) == Some(FsmV { gvar: p.gvar + cs, ..p }),
    decreases cs.len(),
{
    if cs.len() == 0 {
        assert(p.gvar + cs =~= p.gvar);
        assert(FsmV { gvar: p.gvar + cs, ..p } == p);
    } else {
        let c = cs[0];
        let q = FsmV { gvar: p.gvar.push(c), ..p };
        assert(fsm_step(p, c) == Some(q));
        assert(all_alnum(cs.drop_first())) by {
            assert(forall|i: int|
                0 <= i < cs.len() - 1 ==> #[trigger] cs.drop_first()[i] == cs[i + 1]);
        }
        lemma_run_gvar(q, cs.drop_first());
        assert(p.gvar.push(c) + cs.drop_first() =~= p.gvar + cs);
    }
}

/// From inside a key, alphanumerics extend the key.
proof fn lemma_run_key(p: FsmV, cs: Seq<char>)
    requires
        p.st == 10,
        all_alnum(cs),
    ensures
        fsm_run(p, cs) == Some(FsmV { lkey: p.lkey + cs, ..p }),
    decreases cs.len(),
{
    if cs.len() == 0 {
        assert(p.lkey + cs =~= p.lkey);
        assert(FsmV { lkey: p.lkey + cs, ..p } == p);
    } else {
        let c = cs[0];
        let q = FsmV { lkey: p.lkey.push(c), ..p };
        assert(fsm_step(p, c) == Some(q));
        assert(all_alnum(cs.drop_first())) by {
            assert(forall|i: int|
                0 <= i < cs.len() - 1 ==> #[trigger] cs.drop_first()[i] == cs[i + 1]);
        }
        lemma_run_key(q, cs.drop_first());
        assert(p.lkey.push(c) + cs.drop_first() =~= p.lkey + cs);
    }
}

/// From inside a value, anything but `)` extends the value.
proof fn lemma_run_val(p: FsmV, cs: Seq<char>)
    requires
        p.st == 12,
        value_chars(cs),
    ensures
        fsm_run(p, cs) == Some(FsmV { lval: p.lval + cs, ..p }),
    decreases cs.len(),
{
    if cs.len() == 0 {
        assert(p.lval + cs =~= p.lval);
        assert(FsmV { lval: p.lval + cs, ..p } == p);
    } else {
        let c = cs[0];
        let q = FsmV { lval: p.lval.push(c), ..p };
        assert(fsm_step(p, c) == Some(q));
        assert(value_chars(cs.drop_first())) by {
            assert(forall|i: int|
                0 <= i < cs.len() - 1 ==> #[trigger] cs.drop_first()[i] == cs[i + 1]);
        }
        lemma_run_val(q, cs.drop_first());
        assert(p.lval.push(c) + cs.drop_first() =~= p.lval + cs);
    }
}

/// Trimming does nothing to a sequence with no trailing whitespace.
proof fn lemma_trim_noop(s: Seq<char>)
    requires
        s.len() == 0 || !spec_is_space(s.last()),
    ensures
        spec_trim_end(s) == s,
{
}

/// Trimming `s` with one space appended gives `s` back, when `s` itself
/// has no trailing whitespace.
proof fn lemma_trim_one_space(s: Seq<char>)
    requires
        s.len() == 0 || !spec_is_space(s.last()),
    ensures
        spec_trim_end(s.push(' ')) == s,
{
    assert(spec_is_space(' ')) by {
        assert(' ' as u32 == 0x20);
    }
    assert(s.push(' ').last() == ' ');
    assert(s.push(' ').drop_last() =~= s);
    lemma_trim_noop(s);
}

/// Alphanumerics are never whitespace.
proof fn lemma_alnum_not_space(c: char)
    requires
        spec_is_alnum(c),
    ensures
        !spec_is_space(c),
{
}

/// Trimming yields a prefix, so character properties survive it.
proof fn lemma_trim_prefix(s: Seq<char>)
    ensures
        spec_trim_end(s).len() <= s.len(),
        spec_trim_end(s) == s.subrange(0, spec_trim_end(s).len() as int),
    decreases s.len(),
{
    if s.len() > 0 && spec_is_space(s.last()) {
        lemma_trim_prefix(s.drop_last());
        assert(s.drop_last() =~= s.subrange(0, s.len() - 1));
        assert(s.drop_last().subrange(0, spec_trim_end(s.drop_last()).len() as int) =~= s.subrange(
            0,
            spec_trim_end(s.drop_last()).len() as int,
        ));
    } else {
        assert(s.subrange(0, s.len() as int) =~= s);
    }
}

/// Trimming keeps the first character when it is not whitespace.
proof fn lemma_trim_keeps_head(s: Seq<char>)
    requires
        s.len() > 0,
        !spec_is_space(s[0]),
    ensures
        spec_trim_end(s).len() > 0,
        spec_trim_end(s)[0] == s[0],
    decreases s.len(),
{
    if spec_is_space(s.last()) {
        assert(s.drop_last()[0] == s[0]);
        lemma_trim_keeps_head(s.drop_last());
    }
}

/// A trimmed non-empty result never ends in whitespace.
proof fn lemma_trim_last(s: Seq<char>)
    ensures
        spec_trim_end(s).len() > 0 ==> !spec_is_space(spec_trim_end(s).last()),
    decreases s.len(),
{
    if s.len() > 0 && spec_is_space(s.last()) {
        lemma_trim_last(s.drop_last());
    }
}

/// Everything the machine guarantees of its own configuration, state by
/// state: which accumulators are filled, and from which characters.
pub open spec fn fsm_inv(p: FsmV) -> bool {
    &&& 0 <= p.st <= 14
    &&& all_alnum(p.set)
    &&& oracle_chars(p.oracle)
    &&& (p.oracle.len() > 0 ==> spec_is_alnum(p.oracle[0]))
    &&& all_alnum(p.gvar)
    &&& all_alnum(p.lkey)
    &&& value_chars(p.lval)
    &&& (p.lval.len() > 0 ==> spec_is_alnum(p.lval[0]))
    &&& (forall|i: int|
        0 <= i < p.gvars.len() ==> (#[trigger] p.gvars[i]).len() > 0 && all_alnum(p.gvars[i]))
    &&& (forall|i: int|
        0 <= i < p.lvars.len() ==> {
            let kv = #[trigger] p.lvars[i];
            &&& kv.0.len() > 0
            &&& all_alnum(kv.0)
            &&& kv.1.len() > 0
            &&& spec_is_alnum(kv.1[0])
            &&& value_chars(kv.1)
        })
    &&& (p.st <= 3 ==> p.set.len() == 0 && p.oracle.len() == 0 && p.gvars.len() == 0
        && p.lvars.len() == 0 && p.gvar.len() == 0)
    &&& (p.st == 4 || p.st == 5 ==> p.set.len() > 0 && p.oracle.len() == 0 && p.gvars.len() == 0
        && p.lvars.len() == 0 && p.gvar.len() == 0)
    &&& (6 <= p.st <= 13 ==> p.set.len() > 0 && p.oracle.len() > 0)
    &&& (p.st == 14 ==> (p.set.len() > 0 ==> p.oracle.len() > 0))
    &&& (p.st == 8 ==> p.gvar.len() > 0)
    &&& (p.st == 10 || p.st == 11 || p.st == 12 ==> p.lkey.len() > 0)
    &&& (p.st == 12 ==> p.lval.len() > 0)
}

/// Every transition preserves the machine invariant.
proof fn lemma_inv_step(p: FsmV, c: char, q: FsmV)
    requires
        fsm_inv(p),
        fsm_step(p, c) == Some(q),
    ensures
        fsm_inv(q),
{
    assert(forall|s: Seq<char>|
        all_alnum(s) && spec_is_alnum(c) ==> all_alnum(#[trigger] s.push(c)));
    assert(forall|s: Seq<char>|
        oracle_chars(s) && c != '#' && c != '|' ==> oracle_chars(#[trigger] s.push(c)));
    assert(forall|s: Seq<char>|
        value_chars(s) && c != ')' ==> value_chars(#[trigger] s.push(c)));
    if p.st == 9 && spec_is_alnum(c) {
        assert(q.lkey == seq![c]);
        assert(all_alnum(q.lkey));
    }
    if p.st == 11 && c != ' ' && spec_is_alnum(c) {
        assert(q.lval == seq![c]);
        assert(value_chars(q.lval));
    }
    if p.st == 8 && c == ' ' {
        assert(q.gvars == p.gvars.push(p.gvar));
        assert(forall|i: int|
            0 <= i < p.gvars.len() ==> q.gvars[i] == #[trigger] p.gvars[i]);
        assert(q.gvars.last() == p.gvar);
    }
    if p.st == 12 && c == ')' {
        assert(q.lvars == p.lvars.push((p.lkey, p.lval)));
        assert(forall|i: int|
            0 <= i < p.lvars.len() ==> q.lvars[i] == #[trigger] p.lvars[i]);
        assert(q.lvars.last() == (p.lkey, p.lval));
    }
}

/// Running any input from an invariant-respecting configuration lands in
/// an invariant-respecting configuration.
proof fn lemma_inv_run(p: FsmV, s: Seq<char>, q: FsmV)
    requires
        fsm_inv(p),
        fsm_run(p, s) == Some(q),
    ensures
        fsm_inv(q),
    decreases s.len(),
{
    if s.len() > 0 {
        let r = fsm_step(p, s[0]).unwrap();
        lemma_inv_step(p, s[0], r);
        lemma_inv_run(r, s.subrange(1, s.len() as int), q);
    }
}

/// Every successfully parsed line other than the blank no-op line is
/// well-formed: the parser's accepting states only ever yield lines that
/// render back into the grammar.
pub proof fn lemma_parse_wf(s: Seq<char>, l: LineV)
    requires
        spec_parse(s) == Some(l),
        l.set.len() > 0,
    ensures
        wf_line(l),
{
    let p = fsm_run(fsm_init(), s).unwrap();
    lemma_inv_run(fsm_init(), s, p);
    assert(fsm_finish(p) == Some(l));
    assert(p.set.len() > 0);
    assert(6 <= p.st <= 13 || p.st == 14);
    assert(p.oracle.len() > 0);
    lemma_alnum_not_space(p.oracle[0]);
    lemma_trim_keeps_head(p.oracle);
    lemma_trim_last(p.oracle);
    lemma_trim_prefix(p.oracle);
    assert(oracle_chars(l.oracle)) by {
        let t = spec_trim_end(p.oracle);
        assert(forall|i: int| 0 <= i < t.len() ==> t[i] == p.oracle[i]);
    }
    assert(spec_is_alnum(l.oracle[0]));
    if p.st == 8 {
        assert(l.gvars == p.gvars.push(p.gvar));
        assert(forall|i: int|
            0 <= i < p.gvars.len() ==> l.gvars[i] == #[trigger] p.gvars[i]);
        assert(l.gvars.last() == p.gvar);
    }
}

/// The round-trip law: any line that some text parses to, other than the
/// blank no-op line, is reproduced exactly by parsing its own canonical
/// rendering.
pub proof fn lemma_round_trip(s: Seq<char>, l: LineV)
    requires
        spec_parse(s) == Some(l),
        l.set.len() > 0,
    ensures
        spec_parse(spec_render(l)) == Some(l),
{
    lemma_parse_wf(s, l);
    lemma_wf_render_parses(l);
}

/// The tally of qualifier tokens after the pending token is flushed, as a
/// trailing space or end of line flushes it.
pub open spec fn flushed(p: FsmV) -> Seq<Seq<char>> {
    if p.st == 8 {
        p.gvars.push(p.gvar)
    } else {
        p.gvars
    }
}

/// Between variants, a space and one qualifier token land inside that
/// token, flushing any pending one first.
proof fn lemma_run_token(p: FsmV, g: Seq<char>)
    requires
        p.st == 7 || p.st == 8,
        p.st == 7 ==> p.gvar.len() == 0,
        g.len() > 0,
        all_alnum(g),
    ensures
        fsm_run(p, seq![' '] + g) == Some(
            (FsmV { st: 8, gvars: flushed(p), gvar: g, ..p }),
        ),
{
    let p7 = FsmV { st: 7, gvars: flushed(p), gvar: Seq::empty(), ..p };
    assert(fsm_step(p, ' ') == Some(p7)) by {
        if p.st == 7 {
            assert(p.gvar =~= Seq::<char>::empty());
            assert(FsmV { st: 7, gvars: flushed(p), gvar: Seq::empty(), ..p } == p);
        }
    }
    let c = g[0];
    let p8 = FsmV { st: 8, gvar: seq![c], ..p7 };
    assert(fsm_step(p7, c) == Some(FsmV { st: 8, gvar: p7.gvar.push(c), ..p7 }));
    assert(p7.gvar.push(c) =~= seq![c]);
    assert(all_alnum(g.drop_first())) by {
        assert(forall|i: int|
            0 <= i < g.len() - 1 ==> #[trigger] g.drop_first()[i] == g[i + 1]);
    }
    lemma_run_gvar(p8, g.drop_first());
    assert(seq![c] + g.drop_first() =~= g);
    assert(seq![' '] + g =~= (Seq::<char>::empty().push(' ')).push(c) + g.drop_first());
    lemma_run_app(p, (Seq::<char>::empty().push(' ')).push(c), g.drop_first());
    lemma_run_snoc(p, Seq::<char>::empty().push(' '), c);
    lemma_run_snoc(p, Seq::<char>::empty(), ' ');
}

/// The whole qualifier-token section: ends inside the last token.
proof fn lemma_run_gvars(p: FsmV, gs: Seq<Seq<char>>)
    requires
        p.st == 7,
        p.gvar.len() == 0,
        gs.len() > 0,
        forall|i: int| 0 <= i < gs.len() ==> (#[trigger] gs[i]).len() > 0 && all_alnum(gs[i]),
    ensures
        fsm_run(p, gvars_rendered(gs)) == Some(
            (FsmV { st: 8, gvars: p.gvars + gs.drop_last(), gvar: gs.last(), ..p }),
        ),
    decreases gs.len(),
{
    if gs.len() == 1 {
        assert(gvars_rendered(gs.drop_last()) == Seq::<char>::empty()) by {
            assert(gs.drop_last().len() == 0);
        }
        assert(gvars_rendered(gs) =~= seq![' '] + gs[0]);
        lemma_run_token(p, gs[0]);
        assert(p.gvars + gs.drop_last() =~= p.gvars);
        assert(FsmV { st: 8, gvars: p.gvars + gs.drop_last(), gvar: gs.last(), ..p } == (FsmV {
            st: 8,
            gvars: flushed(p),
            gvar: gs[0],
            ..p
        }));
    } else {
        let dl = gs.drop_last();
        assert(forall|i: int| 0 <= i < dl.len() ==> #[trigger] dl[i] == gs[i]);
        lemma_run_gvars(p, dl);
        let q = FsmV { st: 8, gvars: p.gvars + dl.drop_last(), gvar: dl.last(), ..p };
        lemma_run_token(q, gs.last());
        lemma_run_app(p, gvars_rendered(dl), seq![' '] + gs.last());
        assert(gvars_rendered(gs) == gvars_rendered(dl) + (seq![' '] + gs.last())) by {
            assert(gvars_rendered(gs) == gvars_rendered(dl) + seq![' '] + gs.last());
            assert(gvars_rendered(dl) + seq![' '] + gs.last() =~= gvars_rendered(dl) + (seq![' ']
                + gs.last()));
        }
        assert(flushed(q) =~= p.gvars + gs.drop_last()) by {
            assert(flushed(q) == q.gvars.push(q.gvar));
        }
    }
}

/// One `(key: value)` variant consumed from between variants: flushes any
/// pending qualifier token and ends just after the closing paren.
#[verifier::rlimit(100)]
proof fn lemma_run_lvar_item(p: FsmV, kv: (Seq<char>, Seq<char>))
    requires
        p.st == 7 || p.st == 8 || p.st == 13,
        p.st == 7 ==> p.gvar.len() == 0,
        kv.0.len() > 0,
        all_alnum(kv.0),
        kv.1.len() > 0,
        spec_is_alnum(kv.1[0]),
        value_chars(kv.1),
    ensures
        fsm_run(p, lvar_rendered(kv)) == Some(
            (FsmV {
                st: 13,
                gvars: flushed(p),
                gvar: if p.st == 8 {
                    Seq::empty()
                } else {
                    p.gvar
                },
                lvars: p.lvars.push(kv),
                lkey: kv.0,
                lval: kv.1,
                ..p
            }),
        ),
{
    let k = kv.0;
    let v = kv.1;
    let gv: Seq<char> = if p.st == 8 {
        Seq::empty()
    } else {
        p.gvar
    };
    // after the leading space: between variants, pending token flushed
    let p7 = FsmV { st: 7, gvars: flushed(p), gvar: gv, ..p };
    assert(fsm_step(p, ' ') == Some(p7)) by {
        if p.st == 7 {
            assert(FsmV { st: 7, gvars: flushed(p), gvar: gv, ..p } == p);
        } else if p.st == 13 {
            assert(FsmV { st: 7, gvars: flushed(p), gvar: gv, ..p } == (FsmV { st: 7, ..p }));
        }
    }
    // '(' opens the variant
    let p9 = FsmV { st: 9, ..p7 };
    assert(fsm_step(p7, '(') == Some(p9));
    // the key
    let p10 = FsmV { st: 10, lkey: seq![k[0]], ..p9 };
    assert(fsm_step(p9, k[0]) == Some(p10));
    assert(all_alnum(k.drop_first())) by {
        assert(forall|i: int|
            0 <= i < k.len() - 1 ==> #[trigger] k.drop_first()[i] == k[i + 1]);
    }
    lemma_run_key(p10, k.drop_first());
    let p10b = FsmV { lkey: seq![k[0]] + k.drop_first(), ..p10 };
    assert(seq![k[0]] + k.drop_first() =~= k);
    // the colon and optional space
    let p11 = FsmV { st: 11, lkey: k, ..p10 };
    assert(fsm_step(p10b, ':') == Some(p11));
    assert(fsm_step(p11, ' ') == Some(p11));
    // the value
    let p12 = FsmV { st: 12, lval: seq![v[0]], ..p11 };
    assert(fsm_step(p11, v[0]) == Some(p12));
    assert(value_chars(v.drop_first())) by {
        assert(forall|i: int|
            0 <= i < v.len() - 1 ==> #[trigger] v.drop_first()[i] == v[i + 1]);
    }
    lemma_run_val(p12, v.drop_first());
    let p12b = FsmV { lval: seq![v[0]] + v.drop_first(), ..p12 };
    assert(seq![v[0]] + v.drop_first() =~= v);
    // the closing paren records the pair
    let p13 = FsmV { st: 13, lvars: p.lvars.push((k, v)), lkey: k, lval: v, gvars: flushed(p), gvar: gv, ..p };
    assert(fsm_step(FsmV { lval: v, ..p12 }, ')') == Some(p13));
    // stitch the pieces together
    let s1 = seq![' ', '('] + seq![k[0]];
    let s2 = k.drop_first();
    let s3 = seq![':', ' '] + seq![v[0]];
    let s4 = v.drop_first();
    let s5 = seq![')'];
    assert(lvar_rendered(kv) =~= s1 + s2 + s3 + s4 + s5);
    assert(fsm_run(p, s1) == Some(p10)) by {
        assert(s1 =~= ((Seq::<char>::empty().push(' ')).push('(')).push(k[0]));
        lemma_run_snoc(p, (Seq::<char>::empty().push(' ')).push('('), k[0]);
        lemma_run_snoc(p, Seq::<char>::empty().push(' '), '(');
        lemma_run_snoc(p, Seq::<char>::empty(), ' ');
    }
    assert(fsm_run(p10, s2) == Some(p10b));
    assert(fsm_run(p10b, s3) == Some(p12)) by {
        assert(s3 =~= ((Seq::<char>::empty().push(':')).push(' ')).push(v[0]));
        lemma_run_snoc(p10b, (Seq::<char>::empty().push(':')).push(' '), v[0]);
        lemma_run_snoc(p10b, Seq::<char>::empty().push(':'), ' ');
        lemma_run_snoc(p10b, Seq::<char>::empty(), ':');
        assert(p10b == (FsmV { lkey: k, ..p10 }));
        assert(fsm_step(p10b, ':') == Some(p11));
    }
    assert(fsm_run(p12, s4) == Some(p12b));
    assert(fsm_run(p12b, s5) == Some(p13)) by {
        assert(s5 =~= Seq::<char>::empty().push(')'));
        lemma_run_snoc(p12b, Seq::<char>::empty(), ')');
        assert(p12b == (FsmV { lval: v, ..p12 }));
    }
    lemma_run_app(p, s1, s2 + s3 + s4 + s5);
    lemma_run_app(p10, s2, s3 + s4 + s5);
    lemma_run_app(p10b, s3, s4 + s5);
    lemma_run_app(p12, s4, s5);
    assert(s1 + (s2 + (s3 + (s4 + s5))) =~= s1 + s2 + s3 + s4 + s5);
    assert(s2 + (s3 + (s4 + s5)) =~= s2 + s3 + s4 + s5);
    assert(s3 + (s4 + s5) =~= s3 + s4 + s5);
    assert(fsm_run(p, lvar_rendered(kv)) == Some(p13));
}

/// The whole local-variant section: ends just after the last closing
/// paren, with every pair recorded in order.
proof fn lemma_run_lvars(p: FsmV, ls: Seq<(Seq<char>, Seq<char>)>)
    requires
        p.st == 7 || p.st == 8 || p.st == 13,
        p.st == 7 ==> p.gvar.len() == 0,
        ls.len() > 0,
        forall|i: int|
            0 <= i < ls.len() ==> {
                let kv = #[trigger] ls[i];
                &&& kv.0.len() > 0
                &&& all_alnum(kv.0)
                &&& kv.1.len() > 0
                &&& spec_is_alnum(kv.1[0])
                &&& value_chars(kv.1)
            },
    ensures
        fsm_run(p, lvars_rendered(ls)) == Some(
            (FsmV {
                st: 13,
                gvars: flushed(p),
                gvar: if p.st == 8 {
                    Seq::empty()
                } else {
                    p.gvar
                },
                lvars: p.lvars + ls,
                lkey: ls.last().0,
                lval: ls.last().1,
                ..p
            }),
        ),
    decreases ls.len(),
{
    if ls.len() == 1 {
        assert(lvars_rendered(ls.drop_last()) == Seq::<char>::empty()) by {
            assert(ls.drop_last().len() == 0);
        }
        assert(lvars_rendered(ls) =~= lvar_rendered(ls[0]));
        lemma_run_lvar_item(p, ls[0]);
        assert(p.lvars.push(ls[0]) =~= p.lvars + ls);
    } else {
        let dl = ls.drop_last();
        assert(forall|i: int| 0 <= i < dl.len() ==> #[trigger] dl[i] == ls[i]);
        lemma_run_lvars(p, dl);
        let q = FsmV {
            st: 13,
            gvars: flushed(p),
            gvar: if p.st == 8 {
                Seq::empty()
            } else {
                p.gvar
            },
            lvars: p.lvars + dl,
            lkey: dl.last().0,
            lval: dl.last().1,
            ..p
        };
        lemma_run_lvar_item(q, ls.last());
        lemma_run_app(p, lvars_rendered(dl), lvar_rendered(ls.last()));
        assert(lvars_rendered(ls) == lvars_rendered(dl) + lvar_rendered(ls.last()));
        assert((p.lvars + dl).push(ls.last()) =~= p.lvars + ls);
        assert(flushed(q) == q.gvars);
    }
}

/// The heart of the round trip: the canonical rendering of any well-formed
/// line drives the machine to an accepting state that yields the line
/// itself.
pub proof fn lemma_wf_render_parses(l: LineV)
    requires
        wf_line(l),
    ensures
        spec_parse(spec_render(l)) == Some(l),
{
    let q = l.quantity;
    // the quantity
    lemma_run_digits(q);
    let p1 = FsmV { st: 1, quantity: q, ..fsm_init() };
    // "x "
    let p3 = FsmV { st: 3, quantity: q, ..fsm_init() };
    assert(fsm_run(p1, seq!['x', ' ']) == Some(p3)) by {
        assert(seq!['x', ' '] =~= (Seq::<char>::empty().push('x')).push(' '));
        lemma_run_snoc(p1, Seq::<char>::empty().push('x'), ' ');
        lemma_run_snoc(p1, Seq::<char>::empty(), 'x');
        assert(fsm_step(p1, 'x') == Some(FsmV { st: 2, ..p1 }));
        assert(fsm_step(FsmV { st: 2, ..p1 }, ' ') == Some(FsmV { st: 3, ..p1 }));
    }
    // the set code
    let p4 = FsmV { st: 4, set: l.set, ..p3 };
    assert(fsm_run(p3, l.set) == Some(p4)) by {
        let c = l.set[0];
        assert(spec_is_alnum(c));
        assert(fsm_step(p3, c) == Some(FsmV { st: 4, set: p3.set.push(c), ..p3 }));
        assert(p3.set.push(c) =~= seq![c]);
        assert(all_alnum(l.set.drop_first())) by {
            assert(forall|i: int|
                0 <= i < l.set.len() - 1 ==> #[trigger] l.set.drop_first()[i] == l.set[i + 1]);
        }
        lemma_run_set(FsmV { st: 4, set: seq![c], ..p3 }, l.set.drop_first());
        assert(seq![c] + l.set.drop_first() =~= l.set);
        assert(l.set =~= Seq::<char>::empty().push(c) + l.set.drop_first());
        lemma_run_app(p3, Seq::<char>::empty().push(c), l.set.drop_first());
        lemma_run_snoc(p3, Seq::<char>::empty(), c);
    }
    // the space before the name
    let p5 = FsmV { st: 5, ..p4 };
    assert(fsm_run(p4, seq![' ']) == Some(p5)) by {
        assert(seq![' '] =~= Seq::<char>::empty().push(' '));
        lemma_run_snoc(p4, Seq::<char>::empty(), ' ');
    }
    // the name
    let p6 = FsmV { st: 6, oracle: l.oracle, ..p5 };
    assert(fsm_run(p5, l.oracle) == Some(p6)) by {
        let c = l.oracle[0];
        assert(spec_is_alnum(c));
        assert(c != '#' && c != '|');
        assert(fsm_step(p5, c) == Some(FsmV { st: 6, oracle: p5.oracle.push(c), ..p5 }));
        assert(p5.oracle.push(c) =~= seq![c]);
        assert(oracle_chars(l.oracle.drop_first())) by {
            assert(forall|i: int|
                0 <= i < l.oracle.len() - 1 ==> #[trigger] l.oracle.drop_first()[i] == l.oracle[i
                    + 1]);
        }
        lemma_run_oracle(FsmV { st: 6, oracle: seq![c], ..p5 }, l.oracle.drop_first());
        assert(seq![c] + l.oracle.drop_first() =~= l.oracle);
        assert(l.oracle =~= Seq::<char>::empty().push(c) + l.oracle.drop_first());
        lemma_run_app(p5, Seq::<char>::empty().push(c), l.oracle.drop_first());
        lemma_run_snoc(p5, Seq::<char>::empty(), c);
    }
    lemma_trim_noop(l.oracle);
    let head = spec_dec(q) + seq!['x', ' '] + l.set + seq![' '] + l.oracle;
    assert(fsm_run(fsm_init(), head) == Some(p6)) by {
        lemma_run_app(fsm_init(), spec_dec(q), seq!['x', ' '] + (l.set + (seq![' '] + l.oracle)));
        lemma_run_app(p1, seq!['x', ' '], l.set + (seq![' '] + l.oracle));
        lemma_run_app(p3, l.set, seq![' '] + l.oracle);
        lemma_run_app(p4, seq![' '], l.oracle);
        assert(spec_dec(q) + (seq!['x', ' '] + (l.set + (seq![' '] + l.oracle))) =~= head);
        assert(seq!['x', ' '] + (l.set + (seq![' '] + l.oracle)) =~= seq!['x', ' '] + l.set + seq![
            ' ',
        ] + l.oracle);
        assert(l.set + (seq![' '] + l.oracle) =~= l.set + seq![' '] + l.oracle);
    }
    if l.gvars.len() + l.lvars.len() == 0 {
        assert(spec_render(l) =~= head);
        assert(fsm_finish(p6) == Some(
            (LineV {
                quantity: q,
                set: l.set,
                oracle: spec_trim_end(l.oracle),
                gvars: p6.gvars,
                lvars: p6.lvars,
            }),
        ));
        assert(p6.gvars =~= l.gvars);
        assert(p6.lvars =~= l.lvars);
        assert(spec_parse(spec_render(l)) == Some(l));
    } else {
        // " |" : the space joins the name, the bar opens the variants
        let p6s = FsmV { oracle: l.oracle.push(' '), ..p6 };
        let p7 = FsmV { st: 7, oracle: l.oracle.push(' '), ..p6 };
        assert(fsm_run(p6, seq![' ', '|']) == Some(p7)) by {
            assert(seq![' ', '|'] =~= (Seq::<char>::empty().push(' ')).push('|'));
            lemma_run_snoc(p6, Seq::<char>::empty().push(' '), '|');
            lemma_run_snoc(p6, Seq::<char>::empty(), ' ');
            assert(fsm_step(p6, ' ') == Some(p6s));
            assert(fsm_step(p6s, '|') == Some(p7));
        }
        lemma_trim_one_space(l.oracle);
        let vars = gvars_rendered(l.gvars) + lvars_rendered(l.lvars);
        assert(spec_render(l) =~= head + seq![' ', '|'] + vars);
        let pv: FsmV;
        if l.gvars.len() > 0 {
            lemma_run_gvars(p7, l.gvars);
            let p8 = FsmV {
                st: 8,
                gvars: l.gvars.drop_last(),
                gvar: l.gvars.last(),
                ..p7
            };
            assert(p7.gvars + l.gvars.drop_last() =~= l.gvars.drop_last());
            if l.lvars.len() == 0 {
                pv = p8;
                assert(lvars_rendered(l.lvars) == Seq::<char>::empty()) by {
                    assert(l.lvars.len() == 0);
                }
                assert(vars =~= gvars_rendered(l.gvars));
                assert(fsm_run(p7, vars) == Some(pv));
                assert(fsm_finish(pv) == Some(
                    (LineV {
                        quantity: q,
                        set: l.set,
                        oracle: spec_trim_end(l.oracle.push(' ')),
                        gvars: pv.gvars.push(pv.gvar),
                        lvars: pv.lvars,
                    }),
                ));
                assert(pv.gvars.push(pv.gvar) =~= l.gvars);
                assert(pv.lvars =~= l.lvars);
            } else {
                lemma_run_lvars(p8, l.lvars);
                pv = FsmV {
                    st: 13,
                    gvars: flushed(p8),
                    gvar: Seq::empty(),
                    lvars: p8.lvars + l.lvars,
                    lkey: l.lvars.last().0,
                    lval: l.lvars.last().1,
                    ..p8
                };
                lemma_run_app(p7, gvars_rendered(l.gvars), lvars_rendered(l.lvars));
                assert(fsm_run(p7, vars) == Some(pv));
                assert(flushed(p8) =~= l.gvars);
                assert(p8.lvars + l.lvars =~= l.lvars);
                assert(fsm_finish(pv) == Some(
                    (LineV {
                        quantity: q,
                        set: l.set,
                        oracle: spec_trim_end(l.oracle.push(' ')),
                        gvars: pv.gvars,
                        lvars: pv.lvars,
                    }),
                ));
            }
        } else {
            assert(l.lvars.len() > 0);
            assert(gvars_rendered(l.gvars) == Seq::<char>::empty()) by {
                assert(l.gvars.len() == 0);
            }
            assert(vars =~= lvars_rendered(l.lvars));
            lemma_run_lvars(p7, l.lvars);
            pv = FsmV {
                st: 13,
                gvars: flushed(p7),
                gvar: p7.gvar,
                lvars: p7.lvars + l.lvars,
                lkey: l.lvars.last().0,
                lval: l.lvars.last().1,
                ..p7
            };
            assert(fsm_run(p7, vars) == Some(pv));
            assert(flushed(p7) =~= l.gvars);
            assert(p7.lvars + l.lvars =~= l.lvars);
            assert(fsm_finish(pv) == Some(
                (LineV {
                    quantity: q,
                    set: l.set,
                    oracle: spec_trim_end(l.oracle.push(' ')),
                    gvars: pv.gvars,
                    lvars: pv.lvars,
                }),
            ));
        }
        assert(fsm_run(fsm_init(), spec_render(l)) == Some(pv)) by {
            lemma_run_app(fsm_init(), head, seq![' ', '|'] + vars);
            lemma_run_app(p6, seq![' ', '|'], vars);
            assert(head + (seq![' ', '|'] + vars) =~= spec_render(l));
        }
        assert(spec_parse(spec_render(l)) == Some(l));
    }
}

} // verus!

