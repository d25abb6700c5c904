//! The line parser: an explicit finite-state machine that turns one line of
//! the delta text format into a structured `Line`, plus the canonical
//! renderers `id` and `as_cdif_string`.
//!
//! Grammar, informally: `WS* quantity WS* 'x'? WS* set WS+ name (variants)?
//! comment?`, where `variants` is a `'|'` followed by bare qualifier tokens
//! (global variants) and `(key: value)` pairs (local variants), and a
//! comment runs from `'#'` to the end of the line.  A line that is blank or
//! comment-only parses to quantity 0 with an empty set and name.

use vstd::prelude::*;

use crate::text::is_alnum_char;
use crate::text::is_digit_char;
use crate::text::is_space_char;
use crate::text::push_char;
use crate::text::spec_is_alnum;
use crate::text::spec_is_digit;
use crate::text::spec_is_space;
use vstd::string::StrSliceExecFns;
use vstd::string::StringExecFns;

verus! {

/// One parsed delta statement.
pub struct Line {
    /// How many copies this line credits (always non-negative as parsed).
    pub quantity: u32,
    /// The set code, e.g. `DOM`.
    pub set: String,
    /// The card name (trailing whitespace trimmed).
    pub oracle: String,
    /// Bare qualifier tokens after `|`, in order.
    pub gvars: Vec<String>,
    /// `(key: value)` qualifiers after `|`, in order.
    pub lvars: Vec<(String, String)>,
}

/// The mathematical value of a `Line`.
pub ghost struct LineV {
    pub quantity: u32,
    pub set: Seq<char>,
    pub oracle: Seq<char>,
    pub gvars: Seq<Seq<char>>,
    pub lvars: Seq<(Seq<char>, Seq<char>)>,
}

impl View for Line {
    type V = LineV;

    open spec fn view(&self) -> LineV {
        LineV {
            quantity: self.quantity,
            set: self.set@,
            oracle: self.oracle@,
            gvars: self.gvars.deep_view(),
            lvars: self.lvars.deep_view(),
        }
    }
}

/// The full parser configuration: the automaton state number together with
/// every accumulator the machine writes while scanning a line.
pub ghost struct FsmV {
    pub st: int,
    pub quantity: u32,
    pub set: Seq<char>,
    pub oracle: Seq<char>,
    pub gvars: Seq<Seq<char>>,
    pub lvars: Seq<(Seq<char>, Seq<char>)>,
    pub gvar: Seq<char>,
    pub lkey: Seq<char>,
    pub lval: Seq<char>,
}

pub open spec fn fsm_init() -> FsmV {
    FsmV {
        st: 0,
        quantity: 0,
        set: Seq::empty(),
        oracle: Seq::empty(),
        gvars: Seq::empty(),
        lvars: Seq::empty(),
        gvar: Seq::empty(),
        lkey: Seq::empty(),
        lval: Seq::empty(),
    }
}

/// One decimal digit folded onto an accumulator, with the wrap-around
/// behaviour of 32-bit multiply-and-add.
pub open spec fn acc10(q: u32, c: char) -> u32 {
    ((q * 10 + (c as u32 - 48)) % 0x1_0000_0000) as u32
}

/// The pure transition function `(state, character) -> next configuration`;
/// `None` is a syntax error.
pub open spec fn fsm_step(p: FsmV, c: char) -> Option<FsmV> {
    if p.st == 0 {
        // leading whitespace, then a quantity or a whole-line comment
        if c == ' ' {
            Some(p)
        } else if spec_is_digit(c) {
            Some(FsmV { st: 1, quantity: (c as u32 - 48) as u32, ..p })
        } else if c == '#' {
            Some(FsmV { st: 14, ..p })
        } else {
            None
        }
    } else if p.st == 1 {
        // inside the quantity
        if spec_is_digit(c) {
            Some(FsmV { quantity: acc10(p.quantity, c), ..p })
        } else if c == 'x' {
            Some(FsmV { st: 2, ..p })
        } else if c == ' ' {
            Some(FsmV { st: 3, ..p })
        } else {
            None
        }
    } else if p.st == 2 {
        // just after the optional 'x' suffix
        if c == ' ' {
            Some(FsmV { st: 3, ..p })
        } else {
            None
        }
    } else if p.st == 3 {
        // whitespace before the set code
        if c == ' ' {
            Some(p)
        } else if spec_is_alnum(c) {
            Some(FsmV { st: 4, set: p.set.push(c), ..p })
        } else {
            None
        }
    } else if p.st == 4 {
        // inside the set code
        if spec_is_alnum(c) {
            Some(FsmV { set: p.set.push(c), ..p })
        } else if c == ' ' {
            Some(FsmV { st: 5, ..p })
        } else {
            None
        }
    } else if p.st == 5 {
        // whitespace before the card name
        if c == ' ' {
            Some(p)
        } else if spec_is_alnum(c) {
            Some(FsmV { st: 6, oracle: p.oracle.push(c), ..p })
        } else {
            None
        }
    } else if p.st == 6 {
        // inside the card name
        if c == '#' {
            Some(FsmV { st: 14, ..p })
        } else if c == '|' {
            Some(FsmV { st: 7, ..p })
        } else {
            Some(FsmV { oracle: p.oracle.push(c), ..p })
        }
    } else if p.st == 7 {
        // between variants
        if c == ' ' {
            Some(p)
        } else if spec_is_alnum(c) {
            Some(FsmV { st: 8, gvar: p.gvar.push(c), ..p })
        } else if c == '(' {
            Some(FsmV { st: 9, ..p })
        } else if c == '#' {
            Some(FsmV { st: 14, ..p })
        } else {
            None
        }
    } else if p.st == 8 {
        // inside a global variant
        if c == ' ' {
            Some(FsmV { st: 7, gvars: p.gvars.push(p.gvar), gvar: Seq::empty(), ..p })
        } else if spec_is_alnum(c) {
            Some(FsmV { gvar: p.gvar.push(c), ..p })
        } else {
            None
        }
    } else if p.st == 9 {
        // just after '(' of a local variant
        if spec_is_alnum(c) {
            Some(FsmV { st: 10, lkey: seq![c], ..p })
        } else {
            None
        }
    } else if p.st == 10 {
        // inside a local-variant key
        if spec_is_alnum(c) {
            Some(FsmV { lkey: p.lkey.push(c), ..p })
        } else if c == ':' {
            Some(FsmV { st: 11, ..p })
        } else {
            None
        }
    } else if p.st == 11 {
        // whitespace before a local-variant value
        if c == ' ' {
            Some(p)
        } else if spec_is_alnum(c) {
            Some(FsmV { st: 12, lval: seq![c], ..p })
        } else {
            None
        }
    } else if p.st == 12 {
        // inside a local-variant value; anything but ')' is consumed
        if c == ')' {
            Some(FsmV { st: 13, lvars: p.lvars.push((p.lkey, p.lval)), ..p })
        } else {
            Some(FsmV { lval: p.lval.push(c), ..p })
        }
    } else if p.st == 13 {
        // just after a completed local variant
        if c == ' ' {
            Some(FsmV { st: 7, ..p })
        } else if c == '#' {
            Some(FsmV { st: 14, ..p })
        } else {
            None
        }
    } else if p.st == 14 {
        // trailing comment: consume everything
        Some(p)
    } else {
        None
    }
}

/// Runs the machine over a whole character sequence.
pub open spec fn fsm_run(p: FsmV, s: Seq<char>) -> Option<FsmV>
    decreases s.len(),
{
    if s.len() == 0 {
        Some(p)
    } else {
        match fsm_step(p, s[0]) {
            None => None,
            Some(q) => fsm_run(q, s.subrange(1, s.len() as int)),
        }
    }
}

/// What `str::trim_end` leaves of a character sequence.
pub open spec fn spec_trim_end(s: Seq<char>) -> Seq<char>
    decreases s.len(),
{
    if s.len() > 0 && spec_is_space(s.last()) {
        spec_trim_end(s.drop_last())
    } else {
        s
    }
}

/// The accepting states, and the line each of them yields.
pub open spec fn fsm_finish(p: FsmV) -> Option<LineV> {
    if p.st == 8 {
        // end of line inside a global variant: the pending token counts
        Some(
            LineV {
                quantity: p.quantity,
                set: p.set,
                oracle: spec_trim_end(p.oracle),
                gvars: p.gvars.push(p.gvar),
                lvars: p.lvars,
            },
        )
    } else if p.st == 0 || p.st == 6 || p.st == 7 || p.st == 13 || p.st == 14 {
        Some(
            LineV {
                quantity: p.quantity,
                set: p.set,
                oracle: spec_trim_end(p.oracle),
                gvars: p.gvars,
                lvars: p.lvars,
            },
        )
    } else {
        None
    }
}

/// The meaning of one line of text.
pub open spec fn spec_parse(s: Seq<char>) -> Option<LineV> {
    match fsm_run(fsm_init(), s) {
        None => None,
        Some(p) => fsm_finish(p),
    }
}

/// The character for one decimal digit.
pub open spec fn digit_of(d: u32) -> char {
    ((48 + d) as u8) as char
}

/// The decimal rendering of a number, most significant digit first.
pub open spec fn spec_dec(n: u32) -> Seq<char>
    decreases n,
{
    if n < 10 {
        seq![digit_of(n)]
    } else {
        spec_dec(n / 10).push(digit_of(n % 10))
    }
}

/// The rendering of the global-variant tokens: one leading space each.
pub open spec fn gvars_rendered(gs: Seq<Seq<char>>) -> Seq<char>
    decreases gs.len(),
{
    if gs.len() == 0 {
        Seq::empty()
    } else {
        gvars_rendered(gs.drop_last()) + seq![' '] + gs.last()
    }
}

/// The rendering of one local variant: ` (key: value)`.
pub open spec fn lvar_rendered(kv: (Seq<char>, Seq<char>)) -> Seq<char> {
    seq![' ', '('] + kv.0 + seq![':', ' '] + kv.1 + seq![')']
}

pub open spec fn lvars_rendered(ls: Seq<(Seq<char>, Seq<char>)>) -> Seq<char>
    decreases ls.len(),
{
    if ls.len() == 0 {
        Seq::empty()
    } else {
        lvars_rendered(ls.drop_last()) + lvar_rendered(ls.last())
    }
}

/// The identity key built from a line's parts: `"<SET> <NAME>"`, plus a
/// ` | ...` section whenever any variant is present.
pub open spec fn spec_id_parts(
    set: Seq<char>,
    oracle: Seq<char>,
    gvars: Seq<Seq<char>>,
    lvars: Seq<(Seq<char>, Seq<char>)>,
) -> Seq<char> {
    let base = set + seq![' '] + oracle;
    if gvars.len() + lvars.len() > 0 {
        base + seq![' ', '|'] + gvars_rendered(gvars) + lvars_rendered(lvars)
    } else {
        base
    }
}

pub open spec fn spec_id(l: LineV) -> Seq<char> {
    spec_id_parts(l.set, l.oracle, l.gvars, l.lvars)
}

/// The canonical re-serialization of a line: `"<quantity>x <identity>"`.
pub open spec fn spec_render(l: LineV) -> Seq<char> {
    spec_dec(l.quantity) + seq!['x', ' '] + spec_id(l)
}

fn digit_char(d: u32) -> (c: char)
    requires
        d < 10,
    ensures
        c == digit_of(d),
{
    ((48 + d) as u8) as char
}

/// Renders a number in decimal.
pub fn u32_to_dec(n: u32) -> (r: String)
    ensures
        r@ == spec_dec(n),
    decreases n,
{
    if n < 10 {
        let mut s = String::new();
        push_char(&mut s, digit_char(n));
        proof {
            assert(s@ =~= seq![digit_of(n)]);
        }
        s
    } else {
        let mut s = u32_to_dec(n / 10);
        push_char(&mut s, digit_char(n % 10));
        s
    }
}

/// Builds the identity key from a line's parts; shared by every line type
/// that renders itself.
pub fn render_id(
    set: &str,
    oracle: &str,
    gvars: &Vec<String>,
    lvars: &Vec<(String, String)>,
) -> (r: String)
    ensures
        r@ == spec_id_parts(set@, oracle@, gvars.deep_view(), lvars.deep_view()),
{
    let mut s = String::new();
    s.append(set);
    push_char(&mut s, ' ');
    s.append(oracle);
    proof {
        assert(s@ =~= set@ + seq![' '] + oracle@);
    }
    if gvars.len() > 0 || lvars.len() > 0 {
        push_char(&mut s, ' ');
        push_char(&mut s, '|');
        let ghost base = set@ + seq![' '] + oracle@ + seq![' ', '|'];
        proof {
            assert(gvars.deep_view().subrange(0, 0) =~= Seq::<Seq<char>>::empty());
            assert(s@ =~= base + gvars_rendered(gvars.deep_view().subrange(0, 0)));
        }
        let mut gi: usize = 0;
        while gi < gvars.len()
            invariant
                gi <= gvars.len(),
                s@ == base + gvars_rendered(gvars.deep_view().subrange(0, gi as int)),
            decreases gvars.len() - gi,
        {
            push_char(&mut s, ' ');
            s.append(gvars[gi].as_str());
            proof {
                let gs = gvars.deep_view();
                assert(gs.subrange(0, gi + 1).drop_last() =~= gs.subrange(0, gi as int));
                assert(gs.subrange(0, gi + 1).last() == gs[gi as int]);
                assert(s@ =~= base + gvars_rendered(gs.subrange(0, gi + 1)));
            }
            gi += 1;
        }
        let ghost base2 = base + gvars_rendered(gvars.deep_view());
        proof {
            assert(gvars.deep_view().subrange(0, gvars.len() as int) =~= gvars.deep_view());
            assert(lvars.deep_view().subrange(0, 0) =~= Seq::<(Seq<char>, Seq<char>)>::empty());
            assert(s@ =~= base2 + lvars_rendered(lvars.deep_view().subrange(0, 0)));
        }
        let mut li: usize = 0;
        while li < lvars.len()
            invariant
                li <= lvars.len(),
                s@ == base2 + lvars_rendered(lvars.deep_view().subrange(0, li as int)),
            decreases lvars.len() - li,
        {
            push_char(&mut s, ' ');
            push_char(&mut s, '(');
            s.append(lvars[li].0.as_str());
            push_char(&mut s, ':');
            push_char(&mut s, ' ');
            s.append(lvars[li].1.as_str());
            push_char(&mut s, ')');
            proof {
                let ls = lvars.deep_view();
                assert(ls.subrange(0, li + 1).drop_last() =~= ls.subrange(0, li as int));
                assert(ls.subrange(0, li + 1).last() == ls[li as int]);
                assert(s@ =~= base2 + lvars_rendered(ls.subrange(0, li + 1)));
            }
            li += 1;
        }
        proof {
            assert(lvars.deep_view().subrange(0, lvars.len() as int) =~= lvars.deep_view());
        }
    }
    s
}

impl Line {
    /// The identity key used to group and match lines.
    pub fn id(&self) -> (r: String)
        ensures
            r@ == spec_id(self@),
    {
        render_id(self.set.as_str(), self.oracle.as_str(), &self.gvars, &self.lvars)
    }

    /// The canonical re-serialization, `"<quantity>x <identity>"`.
    pub fn as_cdif_string(&self) -> (r: String)
        ensures
            r@ == spec_render(self@),
    {
        let mut s = u32_to_dec(self.quantity);
        push_char(&mut s, 'x');
        push_char(&mut s, ' ');
        let id = self.id();
        s.append(id.as_str());
        proof {
            assert(s@ =~= spec_dec(self.quantity) + seq!['x', ' '] + spec_id(self@));
        }
        s
    }
}

pub broadcast proof fn lemma_run_app(p: FsmV, a: Seq<char>, b: Seq<char>)
    ensures
        #[trigger] fsm_run(p, a + b) == match fsm_run(p, a) {
            None => None::<FsmV>,
            Some(q) => fsm_run(q, b),
        },
    decreases a.len(),
{
    if a.len() == 0 {
        assert(a + b =~= b);
    } else {
        assert((a + b)[0] == a[0]);
        match fsm_step(p, a[0]) {
            None => {
                assert((a + b).len() > 0);
            }
            Some(q) => {
                assert((a + b).subrange(1, (a + b).len() as int) =~= a.subrange(
                    1,
                    a.len() as int,
                ) + b);
                lemma_run_app(q, a.subrange(1, a.len() as int), b);
            }
        }
    }
}

pub proof fn lemma_run_snoc(p: FsmV, s: Seq<char>, c: char)
    ensures
        fsm_run(p, s.push(c)) == match fsm_run(p, s) {
            None => None::<FsmV>,
            Some(q) => fsm_step(q, c),
        },
{
    assert(s.push(c) =~= s + seq![c]);
    lemma_run_app(p, s, seq![c]);
    match fsm_run(p, s) {
        None => {}
        Some(q) => {
            assert(fsm_run(q, seq![c]) == match fsm_step(q, c) {
                None => None::<FsmV>,
                Some(r) => fsm_run(r, seq![c].subrange(1, 1)),
            });
            match fsm_step(q, c) {
                None => {}
                Some(r) => {
                    assert(seq![c].subrange(1, 1) =~= Seq::<char>::empty());
                }
            }
        }
    }
}

/// Trims trailing whitespace, the way `str::trim_end` does.
pub fn trim_end_str(s: &str) -> (r: String)
    ensures
        r@ == spec_trim_end(s@),
{
    let n = s.unicode_len();
    let mut k = n;
    proof {
        assert(s@.subrange(0, n as int) =~= s@);
    }
    while k > 0 && is_space_char(s.get_char(k - 1))
        invariant
            k <= n,
            n == s@.len(),
            spec_trim_end(s@) == spec_trim_end(s@.subrange(0, k as int)),
        decreases k,
    {
        proof {
            let pre = s@.subrange(0, k as int);
            assert(pre.last() == s@[k - 1]);
            assert(pre.drop_last() =~= s@.subrange(0, k - 1));
        }
        k = k - 1;
    }
    let out = s.substring_char(0, k);
    proof {
        let pre = s@.subrange(0, k as int);
        if k > 0 {
            assert(!spec_is_space(pre.last()));
        }
        assert(spec_trim_end(pre) == pre);
    }
    String::from_str(out)
}

/// Parses one line of text, returning `None` on any syntax error.  The
/// result is exactly what the specification-level machine computes.
pub fn parse_line(line: &str) -> (r: Option<Line>)
    ensures
        match r {
            Some(l) => spec_parse(line@) == Some(l@),
            None => spec_parse(line@) is None,
        },
{
    let n = line.unicode_len();
    let mut st: u8 = 0;
    let mut quantity: u32 = 0;
    let mut set = String::new();
    let mut oracle = String::new();
    let mut gvars: Vec<String> = Vec::new();
    let mut lvars: Vec<(String, String)> = Vec::new();
    let mut gvar = String::new();
    let mut lkey = String::new();
    let mut lval = String::new();

    let mut i: usize = 0;
    proof {
        assert(line@.subrange(0, 0) =~= Seq::<char>::empty());
        assert(gvars.deep_view() =~= Seq::<Seq<char>>::empty());
        assert(lvars.deep_view() =~= Seq::<(Seq<char>, Seq<char>)>::empty());
    }
    while i < n
        invariant
            i <= n,
            n == line@.len(),
            st <= 14,
            fsm_run(fsm_init(), line@.subrange(0, i as int)) == Some(
                FsmV {
                    st: st as int,
                    quantity: quantity,
                    set: set@,
                    oracle: oracle@,
                    gvars: gvars.deep_view(),
                    lvars: lvars.deep_view(),
                    gvar: gvar@,
                    lkey: lkey@,
                    lval: lval@,
                },
            ),
        decreases n - i,
    {
        let ghost pre = line@.subrange(0, i as int);
        let ghost cur = FsmV {
            st: st as int,
            quantity: quantity,
            set: set@,
            oracle: oracle@,
            gvars: gvars.deep_view(),
            lvars: lvars.deep_view(),
            gvar: gvar@,
            lkey: lkey@,
            lval: lval@,
        };
        let c = line.get_char(i);
        proof {
            assert(line@.subrange(0, i + 1) =~= pre.push(c));
            lemma_run_snoc(fsm_init(), pre, c);
        }
        let ok: bool;
        if st == 0 {
            if c == ' ' {
                ok = true;
            } else if is_digit_char(c) {
                st = 1;
                quantity = c as u32 - 48;
                ok = true;
            } else if c == '#' {
                st = 14;
                ok = true;
            } else {
                ok = false;
            }
        } else if st == 1 {
            if is_digit_char(c) {
                let d = c as u32 - 48;
                quantity = (((quantity as u64) * 10 + (d as u64)) % 0x1_0000_0000) as u32;
                ok = true;
            } else if c == 'x' {
                st = 2;
                ok = true;
            } else if c == ' ' {
                st = 3;
                ok = true;
            } else {
                ok = false;
            }
        } else if st == 2 {
            if c == ' ' {
                st = 3;
                ok = true;
            } else {
                ok = false;
            }
        } else if st == 3 {
            if c == ' ' {
                ok = true;
            } else if is_alnum_char(c) {
                push_char(&mut set, c);
                st = 4;
                ok = true;
            } else {
                ok = false;
            }
        } else if st == 4 {
            if is_alnum_char(c) {
                push_char(&mut set, c);
                ok = true;
            } else if c == ' ' {
                st = 5;
                ok = true;
            } else {
                ok = false;
            }
        } else if st == 5 {
            if c == ' ' {
                ok = true;
            } else if is_alnum_char(c) {
                push_char(&mut oracle, c);
                st = 6;
                ok = true;
            } else {
                ok = false;
            }
        } else if st == 6 {
            if c == '#' {
                st = 14;
                ok = true;
            } else if c == '|' {
                st = 7;
                ok = true;
            } else {
                push_char(&mut oracle, c);
                ok = true;
            }
        } else if st == 7 {
            if c == ' ' {
                ok = true;
            } else if is_alnum_char(c) {
                push_char(&mut gvar, c);
                st = 8;
                ok = true;
            } else if c == '(' {
                st = 9;
                ok = true;
            } else if c == '#' {
                st = 14;
                ok = true;
            } else {
                ok = false;
            }
        } else if st == 8 {
            if c == ' ' {
                gvars.push(gvar);
                gvar = String::new();
                st = 7;
                ok = true;
                proof {
                    assert(gvars.deep_view() =~= cur.gvars.push(cur.gvar));
                }
            } else if is_alnum_char(c) {
                push_char(&mut gvar, c);
                ok = true;
            } else {
                ok = false;
            }
        } else if st == 9 {
            if is_alnum_char(c) {
                lkey = String::new();
                push_char(&mut lkey, c);
                st = 10;
                ok = true;
                proof {
                    assert(lkey@ =~= seq![c]);
                }
            } else {
                ok = false;
            }
        } else if st == 10 {
            if is_alnum_char(c) {
                push_char(&mut lkey, c);
                ok = true;
            } else if c == ':' {
                st = 11;
                ok = true;
            } else {
                ok = false;
            }
        } else if st == 11 {
            if c == ' ' {
                ok = true;
            } else if is_alnum_char(c) {
                lval = String::new();
                push_char(&mut lval, c);
                st = 12;
                ok = true;
                proof {
                    assert(lval@ =~= seq![c]);
                }
            } else {
                ok = false;
            }
        } else if st == 12 {
            if c == ')' {
                lvars.push((lkey.clone(), lval.clone()));
                st = 13;
                ok = true;
                proof {
                    assert(lvars.deep_view() =~= cur.lvars.push((cur.lkey, cur.lval)));
                }
            } else {
                push_char(&mut lval, c);
                ok = true;
            }
        } else if st == 13 {
            if c == ' ' {
                st = 7;
                ok = true;
            } else if c == '#' {
                st = 14;
                ok = true;
            } else {
                ok = false;
            }
        } else {
            // st == 14: trailing comment
            ok = true;
        }
        if !ok {
            proof {
                assert(fsm_step(cur, c) is None);
                let suffix = line@.subrange(i as int, n as int);
                assert(line@ =~= pre + suffix);
                lemma_run_app(fsm_init(), pre, suffix);
                assert(suffix[0] == c);
                assert(fsm_run(cur, suffix) is None);
            }
            return None;
        }
        proof {
            assert(fsm_step(cur, c) == Some(
                FsmV {
                    st: st as int,
                    quantity: quantity,
                    set: set@,
                    oracle: oracle@,
                    gvars: gvars.deep_view(),
                    lvars: lvars.deep_view(),
                    gvar: gvar@,
                    lkey: lkey@,
                    lval: lval@,
                },
            ));
        }
        i += 1;
    }
    proof {
        assert(line@.subrange(0, n as int) =~= line@);
    }
    let ghost end = FsmV {
        st: st as int,
        quantity: quantity,
        set: set@,
        oracle: oracle@,
        gvars: gvars.deep_view(),
        lvars: lvars.deep_view(),
        gvar: gvar@,
        lkey: lkey@,
        lval: lval@,
    };
    let trimmed = trim_end_str(oracle.as_str());
    if st == 8 {
        gvars.push(gvar);
        proof {
            assert(gvars.deep_view() =~= end.gvars.push(end.gvar));
        }
        Some(Line { quantity, set, oracle: trimmed, gvars, lvars })
    } else if st == 0 || st == 6 || st == 7 || st == 13 || st == 14 {
        Some(Line { quantity, set, oracle: trimmed, gvars, lvars })
    } else {
        None
    }
}

} // verus!
