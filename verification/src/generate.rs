//! Test generation: draws one value per variable of a question, renders
//! each expression by substituting the drawn values, hands the resulting
//! arithmetic string to the caller-supplied evaluator, picks the shorter
//! of its two renderings, and interleaves everything with the layout.
use vstd::prelude::*;

use itertools::Itertools;
use rand::Rng;

verus! {

use crate::chars::{interleave_join, interleave_texts, strs};
use crate::parse::exprs_rep;
use crate::model::{
    Answer, Document, EvalError, ExpComp, Expression, Question, Test, Var, comps_rep,
};
use crate::nums::{render_int, render_real};

/// Evaluates a finished arithmetic expression string. On a single
/// numeric result the evaluator hands back two renderings of it: one
/// fixed to three fraction digits, one natural; a failed or ambiguous
/// evaluation is `None`. Implementations stand outside the library; the
/// library promises nothing of their results beyond what it states of
/// its own handling of them.
pub trait Evaluator {
    /// Evaluates `expr` and returns the three-decimal and natural
    /// renderings of its single numeric result, if any.
    fn eval_expr(&mut self, expr: &str) -> Option<(String, String)>;
}

/// Relies on rand's thread-local generator and `Rng::gen_range` on a
/// closed interval: the draw lies within the interval. Nothing more is
/// assumed of a random value.
#[verifier::external_body]
fn rand_i64_inclusive(lo: i64, hi: i64) -> (r: i64)
    requires
        lo <= hi,
    ensures
        lo <= r <= hi,
{
    rand::thread_rng().gen_range(lo..=hi)
}

/// Relies on rand's thread-local generator and `Rng::gen_range` on a
/// half-open range: the draw lies below the bound.
#[verifier::external_body]
fn rand_below(n: usize) -> (r: usize)
    requires
        n >= 1,
    ensures
        r < n,
{
    rand::thread_rng().gen_range(0..n)
}

/// Relies on itertools' `permutations` over the index range `0..n`:
/// each element is an arrangement of `k` distinct indices below `n`,
/// every such arrangement occurs, and with `k <= n` at least one
/// arrangement is produced.
#[verifier::external_body]
fn all_permutations(n: usize, k: usize) -> (r: Vec<Vec<usize>>)
    requires
        k <= n,
    ensures
        r@.len() >= 1,
        forall|i: int|
            0 <= i < r@.len() ==> (#[trigger] r@[i])@.len() == k && (forall|a: int|
                0 <= a < k ==> (#[trigger] r@[i]@[a]) < n) && (forall|a: int, b: int|
                0 <= a < b < k ==> r@[i]@[a] != r@[i]@[b]),
        forall|ord: Seq<usize>|
            ord.len() == k && (forall|a: int| 0 <= a < k ==> (#[trigger] ord[a]) < n) && (forall|
                a: int,
                b: int,
            |
                0 <= a < b < k ==> ord[a] != ord[b]) ==> exists|i: int|
                0 <= i < r@.len() && (#[trigger] r@[i])@ == ord,
{
    (0..n).permutations(k).collect()
}

/// One drawn value: a whole part, and for a real variable a fraction in
/// thousandths.
struct Binding {
    name: String,
    whole: i64,
    frac: Option<i64>,
}

/// A binding as the triple (name, whole, fraction).
spec fn bind_rep(b: Binding) -> (Seq<char>, int, Option<int>) {
    (
        b.name@,
        b.whole as int,
        match b.frac {
            Some(f) => Some(f as int),
            None => None,
        },
    )
}

/// A scope as a sequence of triples.
spec fn sc_rep(sc: Seq<Binding>) -> Seq<(Seq<char>, int, Option<int>)> {
    sc.map_values(|b: Binding| bind_rep(b))
}

/// The kind word that draws whole values only.
pub open spec fn int_kind() -> Seq<char> {
    seq!['i', 'n', 't']
}

/// A drawn value respects its variable: an int variable gets a whole
/// value in its closed interval; any other kind gets a whole part in
/// the half-open interval plus a fraction in thousandths. When the
/// interval is empty the minimum is used.
pub open spec fn value_ok(v: Var, b: (Seq<char>, int, Option<int>)) -> bool {
    if v.num_type@ == int_kind() {
        &&& b.2 is None
        &&& (v.min <= v.max ==> v.min <= b.1 <= v.max)
        &&& (v.min > v.max ==> b.1 == v.min)
    } else {
        &&& (match b.2 {
            Some(f) => 0 <= f <= 999,
            None => false,
        })
        &&& (v.min < v.max ==> v.min <= b.1 < v.max)
        &&& (v.min >= v.max ==> b.1 == v.min)
    }
}

/// A scope binds each variable of the list, in order, to a value that
/// respects it.
pub open spec fn scope_ok(vars: Seq<Var>, sc: Seq<(Seq<char>, int, Option<int>)>) -> bool {
    &&& sc.len() == vars.len()
    &&& forall|i: int|
        0 <= i < vars.len() ==> (#[trigger] sc[i]).0 == vars[i].name@ && value_ok(vars[i], sc[i])
}

/// Draws one value per variable, honoring kind and bounds.
fn draw_scope(vars: &Vec<Var>) -> (sc: Vec<Binding>)
    ensures
        scope_ok(vars@, sc_rep(sc@)),
{
    let int_word = String::from_str("int");
    proof {
        reveal_strlit("int");
        assert(int_word@ =~= int_kind());
    }
    let mut sc: Vec<Binding> = Vec::new();
    let mut t: usize = 0;
    while t < vars.len()
        invariant
            t <= vars@.len(),
            int_word@ == int_kind(),
            sc_rep(sc@).len() == t,
            forall|i: int|
                0 <= i < t ==> (#[trigger] sc_rep(sc@)[i]).0 == vars@[i].name@ && value_ok(
                    vars@[i],
                    sc_rep(sc@)[i],
                ),
        decreases vars@.len() - t,
    {
        let v = &vars[t];
        let name = v.name.clone();
        let b: Binding = if v.num_type.eq(&int_word) {
            let whole = if v.min <= v.max {
                rand_i64_inclusive(v.min, v.max)
            } else {
                v.min
            };
            Binding { name, whole, frac: None }
        } else {
            let whole = if v.min < v.max {
                rand_i64_inclusive(v.min, v.max - 1)
            } else {
                v.min
            };
            let frac = rand_i64_inclusive(0, 999);
            Binding { name, whole, frac: Some(frac) }
        };
        let ghost old_rep = sc_rep(sc@);
        let ghost brep = bind_rep(b);
        proof {
            assert(value_ok(vars@[t as int], brep));
        }
        sc.push(b);
        proof {
            assert(sc_rep(sc@) =~= old_rep.push(brep));
        }
        t = t + 1;
    }
    sc
}

/// The first value bound to `name`, scanning from `from`.
pub open spec fn sc_lookup(
    sc: Seq<(Seq<char>, int, Option<int>)>,
    name: Seq<char>,
    from: int,
) -> Option<(int, Option<int>)>
    decreases sc.len() - from,
    when 0 <= from
{
    if from >= sc.len() {
        None
    } else if sc[from].0 == name {
        Some((sc[from].1, sc[from].2))
    } else {
        sc_lookup(sc, name, from + 1)
    }
}

/// The canonical text of a drawn value.
pub open spec fn value_text(w: int, f: Option<int>) -> Seq<char> {
    match f {
        None => render_int(w),
        Some(fr) => render_real(w, fr),
    }
}

/// Every variable reference of the components is bound in the scope.
pub open spec fn comps_bound(
    comps: Seq<(bool, Seq<char>)>,
    sc: Seq<(Seq<char>, int, Option<int>)>,
) -> bool {
    forall|i: int|
        0 <= i < comps.len() && (#[trigger] comps[i]).0 ==> sc_lookup(sc, comps[i].1, 0) is Some
}

/// The arithmetic string of the components under a scope: literal text
/// unchanged, each variable reference replaced by its value's text.
pub open spec fn subst_comps(
    comps: Seq<(bool, Seq<char>)>,
    sc: Seq<(Seq<char>, int, Option<int>)>,
) -> Seq<char>
    decreases comps.len(),
{
    if comps.len() == 0 {
        Seq::empty()
    } else {
        (if comps[0].0 {
            match sc_lookup(sc, comps[0].1, 0) {
                Some(v) => value_text(v.0, v.1),
                None => Seq::empty(),
            }
        } else {
            comps[0].1
        }) + subst_comps(comps.drop_first(), sc)
    }
}

/// Every fraction of the scope lies in thousandths range.
pub open spec fn frac_ok(sc: Seq<(Seq<char>, int, Option<int>)>) -> bool {
    forall|i: int|
        0 <= i < sc.len() ==> match (#[trigger] sc[i]).2 {
            Some(f) => 0 <= f <= 999,
            None => true,
        }
}

/// A scope that respects its variables has thousandths fractions only.
pub proof fn lemma_scope_frac_ok(vars: Seq<Var>, sc: Seq<(Seq<char>, int, Option<int>)>)
    requires
        scope_ok(vars, sc),
    ensures
        frac_ok(sc),
{
    assert forall|i: int|
        0 <= i < sc.len() implies match (#[trigger] sc[i]).2 {
        Some(f) => 0 <= f <= 999,
        None => true,
    } by {
        assert(value_ok(vars[i], sc[i]));
    }
}

/// Renders the value bound to a binding as its canonical text.
fn binding_text(b: &Binding) -> (r: String)
    requires
        match b.frac {
            Some(f) => 0 <= f <= 999,
            None => true,
        },
    ensures
        r@ == value_text(bind_rep(*b).1, bind_rep(*b).2),
{
    match b.frac {
        None => crate::nums::int_to_string(b.whole),
        Some(f) => crate::nums::real_to_string(b.whole, f),
    }
}

/// Looks up the first binding for `name`.
fn scope_find(sc: &Vec<Binding>, name: &String) -> (r: Option<usize>)
    ensures
        match r {
            Some(t) => t < sc@.len() && sc_lookup(sc_rep(sc@), name@, 0) == Some(
                (sc_rep(sc@)[t as int].1, sc_rep(sc@)[t as int].2),
            ),
            None => sc_lookup(sc_rep(sc@), name@, 0) is None,
        },
{
    let ghost rep = sc_rep(sc@);
    let mut t: usize = 0;
    while t < sc.len()
        invariant
            t <= sc@.len(),
            rep == sc_rep(sc@),
            sc_lookup(rep, name@, 0) == sc_lookup(rep, name@, t as int),
        decreases sc@.len() - t,
    {
        proof {
            assert(rep[t as int] == bind_rep(sc@[t as int]));
        }
        if sc[t].name.eq(name) {
            proof {
                assert(rep[t as int].0 == name@);
            }
            return Some(t);
        }
        proof {
            assert(rep[t as int].0 != name@);
        }
        t = t + 1;
    }
    None
}

/// Builds the arithmetic string of one expression under a scope; fails
/// when a referenced name has no binding.
fn subst_expr(e: &Expression, sc: &Vec<Binding>) -> (r: Result<String, EvalError>)
    requires
        frac_ok(sc_rep(sc@)),
    ensures
        match r {
            Ok(s) => comps_bound(comps_rep(e.expression@), sc_rep(sc@)) && s@ == subst_comps(
                comps_rep(e.expression@),
                sc_rep(sc@),
            ),
            Err(_) => !comps_bound(comps_rep(e.expression@), sc_rep(sc@)),
        },
{
    let ghost comps = comps_rep(e.expression@);
    let ghost screp = sc_rep(sc@);
    let mut out = String::new();
    let mut t: usize = 0;
    proof {
        assert(comps.skip(0) =~= comps);
        assert(out@ + subst_comps(comps, screp) =~= subst_comps(comps, screp));
    }
    while t < e.expression.len()
        invariant
            t <= e.expression@.len(),
            comps == comps_rep(e.expression@),
            screp == sc_rep(sc@),
            frac_ok(screp),
            subst_comps(comps, screp) == out@ + subst_comps(comps.skip(t as int), screp),
            forall|i: int|
                0 <= i < t && (#[trigger] comps[i]).0 ==> sc_lookup(screp, comps[i].1, 0) is Some,
        decreases e.expression@.len() - t,
    {
        let ghost rest = comps.skip(t as int);
        proof {
            assert(comps[t as int] == comp_at(e, t as int));
            assert(rest[0] == comps[t as int]);
            assert(rest.drop_first() =~= comps.skip(t + 1));
        }
        let ghost old_out = out@;
        match &e.expression[t] {
            ExpComp::Other(text) => {
                out.append(text.as_str());
                proof {
                    assert(old_out + (comps[t as int].1 + subst_comps(comps.skip(t + 1), screp))
                        =~= out@ + subst_comps(comps.skip(t + 1), screp));
                }
            },
            ExpComp::Var(name) => {
                match scope_find(sc, name) {
                    Some(idx) => {
                        proof {
                            assert(screp[idx as int] == bind_rep(sc@[idx as int]));
                        }
                        let vt = binding_text(&sc[idx]);
                        out.append(vt.as_str());
                        proof {
                            assert(screp[idx as int] == bind_rep(sc@[idx as int]));
                            assert(old_out + (value_text(
                                screp[idx as int].1,
                                screp[idx as int].2,
                            ) + subst_comps(comps.skip(t + 1), screp)) =~= out@ + subst_comps(
                                comps.skip(t + 1),
                                screp,
                            ));
                        }
                    },
                    None => {
                        proof {
                            assert(comps[t as int].0 && sc_lookup(
                                screp,
                                comps[t as int].1,
                                0,
                            ) is None);
                        }
                        return Err(EvalError::UnboundVariable);
                    },
                }
            },
        }
        t = t + 1;
    }
    proof {
        assert(comps.skip(t as int) =~= Seq::<(bool, Seq<char>)>::empty());
        assert(out@ + subst_comps(comps.skip(t as int), screp) =~= out@);
    }
    Ok(out)
}

/// The component of `e` at position `i`, as its pair form.
pub open spec fn comp_at(e: &Expression, i: int) -> (bool, Seq<char>) {
    crate::model::comp_rep(e.expression@[i])
}

/// The shorter of the two renderings of an evaluated value: the natural
/// form unless it is strictly longer than the three-decimal form.
pub open spec fn pick_rendering(rounded: Seq<char>, natural: Seq<char>) -> Seq<char> {
    if natural.len() > rounded.len() {
        rounded
    } else {
        natural
    }
}

/// Picks the shorter rendering, favouring the natural one on ties.
fn choose_rendering(rounded: String, natural: String) -> (r: String)
    ensures
        r@ == pick_rendering(rounded@, natural@),
{
    let rl = rounded.as_str().unicode_len();
    let nl = natural.as_str().unicode_len();
    if nl > rl {
        rounded
    } else {
        natural
    }
}

/// One remembered evaluation: the expression string handed to the
/// evaluator and what came back.
struct MemoEntry {
    key: String,
    val: Option<(String, String)>,
}

/// An evaluator outcome as view pairs.
spec fn ov_rep(v: Option<(String, String)>) -> Option<(Seq<char>, Seq<char>)> {
    match v {
        Some(p) => Some((p.0@, p.1@)),
        None => None,
    }
}

/// The memo as a sequence of key/outcome pairs.
spec fn tbl_rep(m: Seq<MemoEntry>) -> Seq<(Seq<char>, Option<(Seq<char>, Seq<char>)>)> {
    m.map_values(|e: MemoEntry| (e.key@, ov_rep(e.val)))
}

/// The outcome remembered for `key`, scanning from `from`.
pub open spec fn tbl_lookup(
    tbl: Seq<(Seq<char>, Option<(Seq<char>, Seq<char>)>)>,
    key: Seq<char>,
    from: int,
) -> Option<Option<(Seq<char>, Seq<char>)>>
    decreases tbl.len() - from,
    when 0 <= from
{
    if from >= tbl.len() {
        None
    } else if tbl[from].0 == key {
        Some(tbl[from].1)
    } else {
        tbl_lookup(tbl, key, from + 1)
    }
}

/// Appending an entry never changes an outcome already remembered.
pub proof fn lemma_tbl_push(
    tbl: Seq<(Seq<char>, Option<(Seq<char>, Seq<char>)>)>,
    e: (Seq<char>, Option<(Seq<char>, Seq<char>)>),
    key: Seq<char>,
    from: int,
)
    requires
        0 <= from <= tbl.len(),
    ensures
        tbl_lookup(tbl.push(e), key, from) == (match tbl_lookup(tbl, key, from) {
            Some(x) => Some(x),
            None => if e.0 == key {
                Some(e.1)
            } else {
                None
            },
        }),
    decreases tbl.len() - from,
{
    assert(tbl.push(e).len() == tbl.len() + 1);
    if from >= tbl.len() {
        assert(from == tbl.len());
        assert(tbl.push(e)[from] == e);
        assert(tbl_lookup(tbl, key, from) is None);
        if e.0 == key {
            assert(tbl_lookup(tbl.push(e), key, from) == Some(e.1));
        } else {
            assert(tbl_lookup(tbl.push(e), key, from) == tbl_lookup(tbl.push(e), key, from + 1));
            assert(tbl_lookup(tbl.push(e), key, from + 1) is None);
        }
    } else {
        assert(tbl.push(e)[from] == tbl[from]);
        lemma_tbl_push(tbl, e, key, from + 1);
    }
}

/// Whatever the first table remembers, the second remembers unchanged.
pub open spec fn tbl_preserved(
    t1: Seq<(Seq<char>, Option<(Seq<char>, Seq<char>)>)>,
    t2: Seq<(Seq<char>, Option<(Seq<char>, Seq<char>)>)>,
) -> bool {
    forall|k: Seq<char>|
        (#[trigger] tbl_lookup(t1, k, 0)) is Some ==> tbl_lookup(t2, k, 0) == tbl_lookup(t1, k, 0)
}

/// Every expression's string is bound in the scope and remembered with
/// a successful outcome.
pub open spec fn exprs_all_ok(
    es: Seq<Seq<(bool, Seq<char>)>>,
    sc: Seq<(Seq<char>, int, Option<int>)>,
    tbl: Seq<(Seq<char>, Option<(Seq<char>, Seq<char>)>)>,
) -> bool {
    forall|i: int|
        0 <= i < es.len() ==> comps_bound(#[trigger] es[i], sc) && (tbl_lookup(
            tbl,
            subst_comps(es[i], sc),
            0,
        ) matches Some(Some(_)))
}

/// The rendered text of each expression: the shorter rendering of the
/// outcome remembered for its substituted string.
pub open spec fn rendered_exprs(
    es: Seq<Seq<(bool, Seq<char>)>>,
    sc: Seq<(Seq<char>, int, Option<int>)>,
    tbl: Seq<(Seq<char>, Option<(Seq<char>, Seq<char>)>)>,
) -> Seq<Seq<char>> {
    es.map_values(
        |comps: Seq<(bool, Seq<char>)>|
            match tbl_lookup(tbl, subst_comps(comps, sc), 0) {
                Some(Some(p)) => pick_rendering(p.0, p.1),
                _ => Seq::<char>::empty(),
            },
    )
}

/// Clones an evaluator outcome.
fn clone_outcome(v: &Option<(String, String)>) -> (r: Option<(String, String)>)
    ensures
        r == *v,
{
    match v {
        Some(p) => Some((p.0.clone(), p.1.clone())),
        None => None,
    }
}

/// The outcome remembered for `key`, cloned out of the memo.
fn memo_find(memo: &Vec<MemoEntry>, key: &String) -> (r: Option<Option<(String, String)>>)
    ensures
        match r {
            Some(v) => tbl_lookup(tbl_rep(memo@), key@, 0) == Some(ov_rep(v)),
            None => tbl_lookup(tbl_rep(memo@), key@, 0) is None,
        },
{
    let ghost rep = tbl_rep(memo@);
    let mut t: usize = 0;
    while t < memo.len()
        invariant
            t <= memo@.len(),
            rep == tbl_rep(memo@),
            tbl_lookup(rep, key@, 0) == tbl_lookup(rep, key@, t as int),
        decreases memo@.len() - t,
    {
        proof {
            assert(rep[t as int] == (memo@[t as int].key@, ov_rep(memo@[t as int].val)));
        }
        if memo[t].key.eq(key) {
            proof {
                assert(rep[t as int].0 == key@);
            }
            return Some(clone_outcome(&memo[t].val));
        }
        proof {
            assert(rep[t as int].0 != key@);
        }
        t = t + 1;
    }
    None
}

/// A question whose rendering asks nothing of the evaluator: neither
/// it nor its answer holds an expression.
pub open spec fn plain_question(q: Question) -> bool {
    &&& q.expressions@.len() == 0
    &&& match q.answer {
        Some(a) => a.expressions@.len() == 0,
        None => true,
    }
}

/// Every question of the document is plain.
pub open spec fn plain_doc(doc: Document) -> bool {
    forall|i: int| 0 <= i < doc.questions@.len() ==> plain_question(#[trigger] doc.questions@[i])
}

/// Renders every expression of the list under the scope, evaluating
/// each distinct expression string once and remembering its outcome.
fn render_exprs<E: Evaluator>(
    es: &Vec<Expression>,
    sc: &Vec<Binding>,
    memo: &mut Vec<MemoEntry>,
    ev: &mut E,
) -> (r: Result<Vec<String>, EvalError>)
    requires
        frac_ok(sc_rep(sc@)),
    ensures
        tbl_preserved(tbl_rep(old(memo)@), tbl_rep(final(memo)@)),
        es@.len() == 0 ==> r is Ok,
        match r {
            Ok(v) => exprs_all_ok(exprs_rep(es@), sc_rep(sc@), tbl_rep(final(memo)@)) && strs(v@)
                == rendered_exprs(exprs_rep(es@), sc_rep(sc@), tbl_rep(final(memo)@)),
            Err(_) => true,
        },
{
    let ghost screp = sc_rep(sc@);
    let ghost reps = exprs_rep(es@);
    let ghost tbl0 = tbl_rep(memo@);
    let mut out: Vec<String> = Vec::new();
    let mut t: usize = 0;
    while t < es.len()
        invariant
            t <= es@.len(),
            screp == sc_rep(sc@),
            frac_ok(screp),
            reps == exprs_rep(es@),
            tbl0 == tbl_rep(old(memo)@),
            tbl_preserved(tbl0, tbl_rep(memo@)),
            out@.len() == t,
            exprs_all_ok(reps.take(t as int), screp, tbl_rep(memo@)),
            strs(out@) == rendered_exprs(reps.take(t as int), screp, tbl_rep(memo@)),
        decreases es@.len() - t,
    {
        let ghost tbl_before = tbl_rep(memo@);
        proof {
            assert(reps[t as int] == comps_rep(es@[t as int].expression@));
        }
        let s = match subst_expr(&es[t], sc) {
            Ok(s) => s,
            Err(e) => {
                return Err(e);
            },
        };
        let v: Option<(String, String)> = match memo_find(memo, &s) {
            Some(v) => v,
            None => {
                let res = ev.eval_expr(s.as_str());
                let stored = clone_outcome(&res);
                let ghost entry_rep = (s@, ov_rep(res));
                memo.push(MemoEntry { key: s, val: stored });
                proof {
                    assert(tbl_rep(memo@) =~= tbl_before.push(entry_rep));
                    lemma_tbl_push(tbl_before, entry_rep, entry_rep.0, 0);
                }
                res
            },
        };
        let ghost tbl_now = tbl_rep(memo@);
        proof {
            assert(tbl_lookup(tbl_now, subst_comps(reps[t as int], screp), 0) == Some(ov_rep(v)));
            assert forall|k: Seq<char>| (#[trigger] tbl_lookup(tbl_before, k, 0)) is Some implies
                tbl_lookup(tbl_now, k, 0) == tbl_lookup(tbl_before, k, 0) by {
                if tbl_now != tbl_before {
                    assert(tbl_now =~= tbl_before.push((tbl_now.last().0, tbl_now.last().1)));
                    lemma_tbl_push(tbl_before, (tbl_now.last().0, tbl_now.last().1), k, 0);
                }
            }
            assert(tbl_preserved(tbl_before, tbl_now));
            assert(tbl_preserved(tbl0, tbl_now));
            assert(exprs_all_ok(reps.take(t as int), screp, tbl_now));
            assert(rendered_exprs(reps.take(t as int), screp, tbl_now) =~= rendered_exprs(
                reps.take(t as int),
                screp,
                tbl_before,
            ));
        }
        let ghost vrep = ov_rep(v);
        let piece = match v {
            Some(p) => {
                proof {
                    assert(vrep == Some((p.0@, p.1@)));
                }
                choose_rendering(p.0, p.1)
            },
            None => {
                return Err(EvalError::Evaluation);
            },
        };
        let ghost old_out = strs(out@);
        out.push(piece);
        proof {
            let keyt = subst_comps(reps[t as int], screp);
            assert(tbl_lookup(tbl_now, keyt, 0) == Some(vrep));
            assert(piece@ == (match tbl_lookup(tbl_now, keyt, 0) {
                Some(Some(p)) => pick_rendering(p.0, p.1),
                _ => Seq::<char>::empty(),
            }));
            assert(strs(out@) =~= old_out.push(piece@));
            assert(rendered_exprs(reps.take(t + 1), screp, tbl_now) =~= rendered_exprs(
                reps.take(t as int),
                screp,
                tbl_now,
            ).push(
                match tbl_lookup(tbl_now, keyt, 0) {
                    Some(Some(p)) => pick_rendering(p.0, p.1),
                    _ => Seq::<char>::empty(),
                },
            ));
            assert(exprs_all_ok(reps.take(t + 1), screp, tbl_now));
        }
        t = t + 1;
    }
    proof {
        assert(reps.take(t as int) =~= reps);
    }
    Ok(out)
}

/// The fixed text standing in for a missing answer.
pub open spec fn no_answers_text() -> Seq<char> {
    seq![
        'N',
        'o',
        ' ',
        'A',
        'n',
        's',
        'w',
        'e',
        'r',
        's',
        ' ',
        'P',
        'r',
        'o',
        'v',
        'i',
        'd',
        'e',
        'd',
    ]
}

fn no_answers_string() -> (r: String)
    ensures
        r@ == no_answers_text(),
{
    let s = String::from_str("No Answers Provided");
    proof {
        reveal_strlit("No Answers Provided");
        assert(s@ =~= no_answers_text());
    }
    s
}

/// One rendering of a question under one scope and one table of
/// evaluator outcomes: the content interleaves the question's layout
/// with its rendered expressions; the answer text does the same with
/// the answer's expressions under the same scope and table, or is the
/// fixed text when the question has no answer.
pub open spec fn q_render_with(
    q: Question,
    sc: Seq<(Seq<char>, int, Option<int>)>,
    tbl: Seq<(Seq<char>, Option<(Seq<char>, Seq<char>)>)>,
    c: Seq<char>,
    a: Seq<char>,
) -> bool {
    &&& scope_ok(q.vars@, sc)
    &&& exprs_all_ok(exprs_rep(q.expressions@), sc, tbl)
    &&& c == interleave_texts(strs(q.layout@), rendered_exprs(exprs_rep(q.expressions@), sc, tbl))
    &&& match q.answer {
        Some(ans) => exprs_all_ok(exprs_rep(ans.expressions@), sc, tbl) && a == interleave_texts(
            strs(ans.layout@),
            rendered_exprs(exprs_rep(ans.expressions@), sc, tbl),
        ),
        None => a == no_answers_text(),
    }
}

/// Some scope respecting the question's variables and some table of
/// evaluator outcomes render the question as `c` and its answer as `a`.
pub open spec fn q_render_ok(q: Question, c: Seq<char>, a: Seq<char>) -> bool {
    exists|sc: Seq<(Seq<char>, int, Option<int>)>, tbl: Seq<(Seq<char>, Option<(Seq<char>, Seq<char>)>)>|
        #[trigger] q_render_with(q, sc, tbl, c, a)
}

/// Renders one question and its answer text: draws a fresh scope, then
/// renders the question's expressions and, under the same scope and
/// remembered outcomes, the answer's. A question without an answer gets
/// the fixed text instead.
pub fn gen_question_text<E: Evaluator>(question: &Question, ev: &mut E) -> (r: Result<
    (String, String),
    EvalError,
>)
    ensures
        plain_question(*question) ==> r is Ok,
        match r {
            Ok(p) => q_render_ok(*question, p.0@, p.1@),
            Err(_) => true,
        },
{
    let sc = draw_scope(&question.vars);
    proof {
        lemma_scope_frac_ok(question.vars@, sc_rep(sc@));
    }
    let mut memo: Vec<MemoEntry> = Vec::new();
    let qtexts = match render_exprs(&question.expressions, &sc, &mut memo, ev) {
        Ok(v) => v,
        Err(e) => {
            return Err(e);
        },
    };
    let ghost tbl_mid = tbl_rep(memo@);
    match &question.answer {
        Some(ans) => {
            let atexts = match render_exprs(&ans.expressions, &sc, &mut memo, ev) {
                Ok(v) => v,
                Err(e) => {
                    return Err(e);
                },
            };
            let content = interleave_join(&question.layout, &qtexts);
            let answers = interleave_join(&ans.layout, &atexts);
            proof {
                let screp = sc_rep(sc@);
                let tbl = tbl_rep(memo@);
                let qreps = exprs_rep(question.expressions@);
                assert forall|i: int| 0 <= i < qreps.len() implies comps_bound(
                    #[trigger] qreps[i],
                    screp,
                ) && (tbl_lookup(tbl, subst_comps(qreps[i], screp), 0) matches Some(Some(_))) by {
                    assert(comps_bound(qreps[i], screp) && (tbl_lookup(
                        tbl_mid,
                        subst_comps(qreps[i], screp),
                        0,
                    ) matches Some(Some(_))));
                    assert(tbl_lookup(tbl, subst_comps(qreps[i], screp), 0) == tbl_lookup(
                        tbl_mid,
                        subst_comps(qreps[i], screp),
                        0,
                    ));
                }
                assert(rendered_exprs(qreps, screp, tbl) =~= rendered_exprs(
                    qreps,
                    screp,
                    tbl_mid,
                ));
                assert(q_render_with(*question, screp, tbl, content@, answers@));
            }
            Ok((content, answers))
        },
        None => {
            let content = interleave_join(&question.layout, &qtexts);
            let answers = no_answers_string();
            proof {
                assert(q_render_with(
                    *question,
                    sc_rep(sc@),
                    tbl_rep(memo@),
                    content@,
                    answers@,
                ));
            }
            Ok((content, answers))
        },
    }
}

/// The left sides of a sequence of rendered pairs.
pub open spec fn pair_lefts(pairs: Seq<(Seq<char>, Seq<char>)>) -> Seq<Seq<char>> {
    pairs.map_values(|p: (Seq<char>, Seq<char>)| p.0)
}

/// The right sides of a sequence of rendered pairs.
pub open spec fn pair_rights(pairs: Seq<(Seq<char>, Seq<char>)>) -> Seq<Seq<char>> {
    pairs.map_values(|p: (Seq<char>, Seq<char>)| p.1)
}

/// One assembled form: each selected question rendered as a pair, the
/// pairs' sides interleaved with the document layout to give the
/// content and the answer key.
pub open spec fn form_with(
    doc: Document,
    ord: Seq<int>,
    pairs: Seq<(Seq<char>, Seq<char>)>,
    c: Seq<char>,
    a: Seq<char>,
) -> bool {
    &&& pairs.len() == ord.len()
    &&& (forall|i: int|
        0 <= i < ord.len() ==> 0 <= ord[i] < doc.questions@.len() && q_render_ok(
            doc.questions@[ord[i]],
            (#[trigger] pairs[i]).0,
            pairs[i].1,
        ))
    &&& c == interleave_texts(strs(doc.layout@), pair_lefts(pairs))
    &&& a == interleave_texts(strs(doc.layout@), pair_rights(pairs))
}

/// Some renderings of the selected questions assemble to `c` and `a`.
pub open spec fn form_ok(doc: Document, ord: Seq<int>, c: Seq<char>, a: Seq<char>) -> bool {
    exists|pairs: Seq<(Seq<char>, Seq<char>)>| #[trigger] form_with(doc, ord, pairs, c, a)
}

/// The question order of a full pass in document order.
pub open spec fn identity_ord(n: int) -> Seq<int> {
    Seq::new(n as nat, |i: int| i)
}

/// An index vector as a sequence of mathematical integers.
pub open spec fn usize_ord(o: Seq<usize>) -> Seq<int> {
    o.map_values(|x: usize| x as int)
}

/// Assembles one test from the document: renders the questions named by
/// `order` (every question in document order when `order` is absent)
/// and interleaves the document layout with the rendered question texts
/// and, in parallel, with the rendered answer texts. The interleaving
/// pairs layout segments with rendered texts by position: when fewer
/// questions are selected than the document holds, the rendered texts
/// fill the first gaps and the remaining layout segments follow
/// unbroken at the end.
pub fn gen_form<E: Evaluator>(doc: &Document, order: Option<&Vec<usize>>, ev: &mut E) -> (r:
    Result<Test, EvalError>)
    requires
        match order {
            Some(o) => forall|i: int|
                0 <= i < o@.len() ==> (#[trigger] o@[i]) < doc.questions@.len(),
            None => true,
        },
    ensures
        plain_doc(*doc) ==> r is Ok,
        match r {
            Ok(test) => form_ok(
                *doc,
                match order {
                    Some(o) => usize_ord(o@),
                    None => identity_ord(doc.questions@.len() as int),
                },
                test.content@,
                test.answers@,
            ),
            Err(_) => true,
        },
{
    let ghost ord: Seq<int> = match order {
        Some(o) => usize_ord(o@),
        None => identity_ord(doc.questions@.len() as int),
    };
    let mut qtexts: Vec<String> = Vec::new();
    let mut atexts: Vec<String> = Vec::new();
    let ghost mut pairs: Seq<(Seq<char>, Seq<char>)> = Seq::empty();
    match order {
        Some(o) => {
            let mut t: usize = 0;
            while t < o.len()
                invariant
                    t <= o@.len(),
                    ord == usize_ord(o@),
                    forall|i: int|
                        0 <= i < o@.len() ==> (#[trigger] o@[i]) < doc.questions@.len(),
                    pairs.len() == t,
                    strs(qtexts@) == pair_lefts(pairs),
                    strs(atexts@) == pair_rights(pairs),
                    forall|i: int|
                        0 <= i < t ==> 0 <= ord[i] < doc.questions@.len() && q_render_ok(
                            doc.questions@[ord[i]],
                            (#[trigger] pairs[i]).0,
                            pairs[i].1,
                        ),
                decreases o@.len() - t,
            {
                let idx = o[t];
                let p = match gen_question_text(&doc.questions[idx], ev) {
                    Ok(p) => p,
                    Err(e) => {
                        proof {
                            if plain_doc(*doc) {
                                assert(plain_question(doc.questions@[idx as int]));
                            }
                        }
                        return Err(e);
                    },
                };
                proof {
                    assert(ord[t as int] == o@[t as int] as int);
                }
                let ghost prep = (p.0@, p.1@);
                let ghost old_pairs = pairs;
                let ghost old_qt = strs(qtexts@);
                let ghost old_at = strs(atexts@);
                qtexts.push(p.0);
                atexts.push(p.1);
                proof {
                    pairs = old_pairs.push(prep);
                    assert(strs(qtexts@) =~= old_qt.push(prep.0));
                    assert(strs(atexts@) =~= old_at.push(prep.1));
                    assert(pair_lefts(pairs) =~= pair_lefts(old_pairs).push(prep.0));
                    assert(pair_rights(pairs) =~= pair_rights(old_pairs).push(prep.1));
                }
                t = t + 1;
            }
        },
        None => {
            let mut t: usize = 0;
            while t < doc.questions.len()
                invariant
                    t <= doc.questions@.len(),
                    ord == identity_ord(doc.questions@.len() as int),
                    pairs.len() == t,
                    strs(qtexts@) == pair_lefts(pairs),
                    strs(atexts@) == pair_rights(pairs),
                    forall|i: int|
                        0 <= i < t ==> 0 <= ord[i] < doc.questions@.len() && q_render_ok(
                            doc.questions@[ord[i]],
                            (#[trigger] pairs[i]).0,
                            pairs[i].1,
                        ),
                decreases doc.questions@.len() - t,
            {
                let p = match gen_question_text(&doc.questions[t], ev) {
                    Ok(p) => p,
                    Err(e) => {
                        proof {
                            if plain_doc(*doc) {
                                assert(plain_question(doc.questions@[t as int]));
                            }
                        }
                        return Err(e);
                    },
                };
                let ghost prep = (p.0@, p.1@);
                let ghost old_pairs = pairs;
                let ghost old_qt = strs(qtexts@);
                let ghost old_at = strs(atexts@);
                qtexts.push(p.0);
                atexts.push(p.1);
                proof {
                    pairs = old_pairs.push(prep);
                    assert(strs(qtexts@) =~= old_qt.push(prep.0));
                    assert(strs(atexts@) =~= old_at.push(prep.1));
                    assert(pair_lefts(pairs) =~= pair_lefts(old_pairs).push(prep.0));
                    assert(pair_rights(pairs) =~= pair_rights(old_pairs).push(prep.1));
                }
                t = t + 1;
            }
        },
    }
    let content = interleave_join(&doc.layout, &qtexts);
    let answers = interleave_join(&doc.layout, &atexts);
    proof {
        assert(pairs.len() == ord.len());
        assert(form_with(*doc, ord, pairs, content@, answers@));
    }
    Ok(Test { content, answers })
}

/// A selection of `k` distinct question indices below `n`.
pub open spec fn valid_sel(ord: Seq<int>, n: int, k: int) -> bool {
    &&& ord.len() == k
    &&& (forall|i: int| 0 <= i < k ==> 0 <= #[trigger] ord[i] < n)
    &&& (forall|i: int, j: int| 0 <= i < j < k ==> ord[i] != ord[j])
}

/// The number of questions each generated test selects.
pub open spec fn sel_count(doc: Document, num_questions: Option<usize>) -> int
    recommends
        num_questions is Some,
{
    let n = doc.questions@.len() as int;
    match num_questions {
        Some(k) => if k < n {
            k as int
        } else {
            n
        },
        None => n,
    }
}

/// What holds of one generated test: without a question count, the
/// questions appear in document order; with one, some selection of
/// `min(count, total)` distinct question indices was used.
pub open spec fn gen_result_ok(
    doc: Document,
    num_questions: Option<usize>,
    c: Seq<char>,
    a: Seq<char>,
) -> bool {
    match num_questions {
        None => form_ok(doc, identity_ord(doc.questions@.len() as int), c, a),
        Some(_) => exists|ord: Seq<int>|
            valid_sel(ord, doc.questions@.len() as int, sel_count(doc, num_questions))
                && #[trigger] form_ok(doc, ord, c, a),
    }
}

/// Generates `num_results` tests from the document. Without a question
/// count every test uses all questions in document order; with one,
/// each test independently draws one arrangement of
/// `min(count, total)` distinct questions. A failed rendering is
/// reported for its own test alone and stops no other test.
pub fn generate<E: Evaluator>(
    doc: &Document,
    num_results: usize,
    num_questions: Option<usize>,
    ev: &mut E,
) -> (r: Vec<Result<Test, EvalError>>)
    ensures
        r@.len() == num_results,
        plain_doc(*doc) ==> forall|t: int| 0 <= t < num_results ==> (#[trigger] r@[t]) is Ok,
        forall|t: int|
            0 <= t < num_results ==> match #[trigger] r@[t] {
                Ok(test) => gen_result_ok(*doc, num_questions, test.content@, test.answers@),
                Err(_) => true,
            },
{
    let mut out: Vec<Result<Test, EvalError>> = Vec::new();
    match num_questions {
        Some(k) => {
            let total = doc.questions.len();
            let k2 = if k < total {
                k
            } else {
                total
            };
            let perms = all_permutations(total, k2);
            let mut c: usize = 0;
            while c < num_results
                invariant
                    c <= num_results,
                    out@.len() == c,
                    total == doc.questions@.len(),
                    k2 == sel_count(*doc, num_questions),
                    num_questions == Some(k),
                    perms@.len() >= 1,
                    forall|i: int|
                        0 <= i < perms@.len() ==> (#[trigger] perms@[i])@.len() == k2 && (forall|
                            a: int,
                        |
                            0 <= a < k2 ==> (#[trigger] perms@[i]@[a]) < total) && (forall|
                            a: int,
                            b: int,
                        |
                            0 <= a < b < k2 ==> perms@[i]@[a] != perms@[i]@[b]),
                    plain_doc(*doc) ==> forall|t: int| 0 <= t < c ==> (#[trigger] out@[t]) is Ok,
                    forall|t: int|
                        0 <= t < c ==> match #[trigger] out@[t] {
                            Ok(test) => gen_result_ok(
                                *doc,
                                num_questions,
                                test.content@,
                                test.answers@,
                            ),
                            Err(_) => true,
                        },
                decreases num_results - c,
            {
                let pi = rand_below(perms.len());
                let res = gen_form(doc, Some(&perms[pi]), ev);
                proof {
                    let ordv = usize_ord(perms@[pi as int]@);
                    assert(valid_sel(ordv, total as int, k2 as int));
                    if let Ok(test) = &res {
                        assert(form_ok(*doc, ordv, test.content@, test.answers@));
                        assert(gen_result_ok(*doc, num_questions, test.content@, test.answers@));
                    }
                }
                out.push(res);
                c = c + 1;
            }
            out
        },
        None => {
            let mut c: usize = 0;
            while c < num_results
                invariant
                    c <= num_results,
                    out@.len() == c,
                    num_questions is None,
                    plain_doc(*doc) ==> forall|t: int| 0 <= t < c ==> (#[trigger] out@[t]) is Ok,
                    forall|t: int|
                        0 <= t < c ==> match #[trigger] out@[t] {
                            Ok(test) => gen_result_ok(
                                *doc,
                                num_questions,
                                test.content@,
                                test.answers@,
                            ),
                            Err(_) => true,
                        },
                decreases num_results - c,
            {
                let res = gen_form(doc, None, ev);
                out.push(res);
                c = c + 1;
            }
            out
        },
    }
}

} // verus!
