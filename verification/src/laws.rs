//! Laws of the library, stated and proved over the same specifications
//! the parsing and generation contracts use: the tokenizer is lossless,
//! a question body replays structurally from its parsed parts, a test
//! generated without reordering keeps the document's own question
//! order, and a question whose answer mirrors it renders content and
//! answer text identically.
use vstd::prelude::*;

verus! {

use crate::chars::{concat_all, interleave_texts, matches_at, strs};
use crate::generate::{
    form_ok, form_with, identity_ord, pair_lefts, pair_rights, q_render_ok, q_render_with,
};
use crate::model::{comp_text, comps_rep, expr_source, Document, Expression, Question};
use crate::parse::{
    e_bodies, e_close, e_layout, e_open, exprs_rep, find_expr, find_ident, lemma_find_expr,
    lemma_find_ident, question_matches, stripped, token_spans, tokens_of_bodies,
};

/// The texts of a component sequence, in order.
pub open spec fn span_texts(spans: Seq<(bool, Seq<char>)>) -> Seq<Seq<char>> {
    spans.map_values(|c: (bool, Seq<char>)| c.1)
}

/// The tokenizer is lossless: concatenating the component texts of a
/// source, identifiers and literal fragments alike, reproduces the
/// source exactly.
pub proof fn lemma_tokens_lossless(s: Seq<char>, from: int)
    requires
        0 <= from <= s.len(),
    ensures
        concat_all(span_texts(token_spans(s, from))) == s.subrange(from, s.len() as int),
    decreases s.len() - from,
{
    lemma_find_ident(s, from);
    match find_ident(s, from) {
        Some((a, b)) => {
            lemma_tokens_lossless(s, b);
            let head = seq![(false, s.subrange(from, a)), (true, s.subrange(a, b))];
            assert(span_texts(head + token_spans(s, b)) =~= seq![
                s.subrange(from, a),
                s.subrange(a, b),
            ] + span_texts(token_spans(s, b)));
            let rest = span_texts(token_spans(s, b));
            let two = seq![s.subrange(from, a), s.subrange(a, b)] + rest;
            let one = seq![s.subrange(a, b)] + rest;
            assert(two.drop_first() =~= one);
            assert(one.drop_first() =~= rest);
            assert(two[0] == s.subrange(from, a));
            assert(one[0] == s.subrange(a, b));
            assert(concat_all(two) == two[0] + concat_all(two.drop_first()));
            assert(concat_all(one) == one[0] + concat_all(one.drop_first()));
            assert(s.subrange(from, a) + (s.subrange(a, b) + s.subrange(b, s.len() as int))
                =~= s.subrange(from, s.len() as int));
        },
        None => {
            assert(span_texts(seq![(false, s.subrange(from, s.len() as int))]) =~= seq![
                s.subrange(from, s.len() as int),
            ]);
            let one = seq![s.subrange(from, s.len() as int)];
            assert(one.drop_first() =~= Seq::<Seq<char>>::empty());
            assert(one[0] == s.subrange(from, s.len() as int));
            assert(concat_all(one) == one[0] + concat_all(one.drop_first()));
            assert(concat_all(Seq::<Seq<char>>::empty()) == Seq::<char>::empty());
            assert(one[0] + Seq::<char>::empty() =~= one[0]);
        },
    }
}

/// An expression parsed from a source replays that source exactly:
/// concatenating its components in order, without substitution, gives
/// the expression's original text back.
pub proof fn lemma_expression_replay(e: Expression, src: Seq<char>)
    requires
        comps_rep(e.expression@) == token_spans(src, 0),
    ensures
        expr_source(e) == src,
{
    lemma_tokens_lossless(src, 0);
    assert(e.expression@.map_values(|c: crate::model::ExpComp| comp_text(c)) =~= span_texts(
        comps_rep(e.expression@),
    ));
    assert(src.subrange(0, src.len() as int) =~= src);
}

/// An expression body wrapped back into its markers.
pub open spec fn wrapped(bs: Seq<Seq<char>>) -> Seq<Seq<char>> {
    bs.map_values(|b: Seq<char>| e_open() + b + e_close())
}

/// The expression split is lossless: interleaving the layout segments
/// with the expression bodies, each wrapped back into its markers,
/// reproduces the split text exactly.
pub proof fn lemma_split_replay(s: Seq<char>, from: int)
    requires
        0 <= from <= s.len(),
    ensures
        interleave_texts(e_layout(s, from), wrapped(e_bodies(s, from))) == s.subrange(
            from,
            s.len() as int,
        ),
    decreases s.len() - from,
{
    lemma_find_expr(s, from);
    match find_expr(s, from) {
        Some((i, j)) => {
            lemma_split_replay(s, j + 5);
            let l0 = s.subrange(from, i);
            let b0 = e_open() + s.subrange(i + 4, j) + e_close();
            let lrest = e_layout(s, j + 5);
            let brest = wrapped(e_bodies(s, j + 5));
            assert(wrapped(seq![s.subrange(i + 4, j)] + e_bodies(s, j + 5)) =~= seq![b0] + brest);
            let a = seq![l0] + lrest;
            let b = seq![b0] + brest;
            assert(interleave_texts(a, b) == a[0] + interleave_texts(b, a.drop_first()));
            assert(a.drop_first() =~= lrest);
            assert(b.drop_first() =~= brest);
            assert(interleave_texts(b, lrest) == b[0] + interleave_texts(lrest, brest));
            assert(s.subrange(i, i + 4) =~= e_open());
            assert(s.subrange(j, j + 5) =~= e_close());
            assert(l0 + (b0 + s.subrange(j + 5, s.len() as int)) =~= s.subrange(
                from,
                s.len() as int,
            ));
        },
        None => {
            assert(wrapped(e_bodies(s, from)) =~= Seq::<Seq<char>>::empty());
            assert(e_layout(s, from) =~= seq![s.subrange(from, s.len() as int)]);
            let a = seq![s.subrange(from, s.len() as int)];
            assert(interleave_texts(a, Seq::<Seq<char>>::empty()) == a[0] + interleave_texts(
                Seq::<Seq<char>>::empty(),
                a.drop_first(),
            ));
            assert(a.drop_first() =~= Seq::<Seq<char>>::empty());
            assert(concat_all(Seq::<Seq<char>>::empty()) == Seq::<char>::empty());
            assert(a[0] + Seq::<char>::empty() =~= s.subrange(from, s.len() as int));
        },
    }
}

/// The sources of a question's expressions, in order.
pub open spec fn expr_sources(es: Seq<Expression>) -> Seq<Seq<char>> {
    es.map_values(|e: Expression| expr_source(e))
}

/// Structural replay of a parsed question: interleaving its layout with
/// its expressions' sources, each wrapped back into its markers,
/// reproduces the question body with its declarations removed.
pub proof fn lemma_question_replay(q: Question, body: Seq<char>)
    requires
        question_matches(q, body),
    ensures
        interleave_texts(strs(q.layout@), wrapped(expr_sources(q.expressions@))) == stripped(
            body,
            0,
        ),
{
    let st = stripped(body, 0);
    lemma_split_replay(st, 0);
    assert(exprs_rep(q.expressions@).len() == q.expressions@.len());
    assert(tokens_of_bodies(e_bodies(st, 0)).len() == e_bodies(st, 0).len());
    assert forall|i: int| 0 <= i < q.expressions@.len() implies (#[trigger] expr_sources(
        q.expressions@,
    )[i]) == e_bodies(st, 0)[i] by {
        assert(exprs_rep(q.expressions@)[i] == comps_rep(q.expressions@[i].expression@));
        assert(tokens_of_bodies(e_bodies(st, 0))[i] == token_spans(e_bodies(st, 0)[i], 0));
        lemma_expression_replay(q.expressions@[i], e_bodies(st, 0)[i]);
        assert(expr_sources(q.expressions@)[i] == expr_source(q.expressions@[i]));
    }
    assert(expr_sources(q.expressions@) =~= e_bodies(st, 0));
    assert(st.subrange(0, st.len() as int) =~= st);
}

/// A test generated without reordering keeps the document's question
/// order: its content is the document layout interleaved with one
/// rendering per question, first question first, and its answer key is
/// the same layout interleaved with the matching answer texts.
pub proof fn lemma_original_order(doc: Document, c: Seq<char>, a: Seq<char>)
    requires
        form_ok(doc, identity_ord(doc.questions@.len() as int), c, a),
    ensures
        exists|pairs: Seq<(Seq<char>, Seq<char>)>|
            {
                &&& pairs.len() == doc.questions@.len()
                &&& (forall|i: int|
                    0 <= i < pairs.len() ==> q_render_ok(
                        doc.questions@[i],
                        (#[trigger] pairs[i]).0,
                        pairs[i].1,
                    ))
                &&& c == interleave_texts(strs(doc.layout@), pair_lefts(pairs))
                &&& a == interleave_texts(strs(doc.layout@), pair_rights(pairs))
            },
{
    let n = doc.questions@.len() as int;
    let ord = identity_ord(n);
    let pairs = choose|pairs: Seq<(Seq<char>, Seq<char>)>| #[trigger] form_with(
        doc,
        ord,
        pairs,
        c,
        a,
    );
    assert(form_with(doc, ord, pairs, c, a));
    assert forall|i: int| 0 <= i < pairs.len() implies q_render_ok(
        doc.questions@[i],
        (#[trigger] pairs[i]).0,
        pairs[i].1,
    ) by {
        assert(ord[i] == i);
        assert(q_render_ok(doc.questions@[ord[i]], pairs[i].0, pairs[i].1));
    }
}

/// An answer mirrors its question when it has the same expression
/// components and the same layout text.
pub open spec fn answer_mirrors(q: Question) -> bool {
    match q.answer {
        Some(ans) => exprs_rep(ans.expressions@) == exprs_rep(q.expressions@) && strs(
            ans.layout@,
        ) == strs(q.layout@),
        None => false,
    }
}

/// A question whose answer mirrors it renders the same text for both:
/// the answer shares the question's scope and evaluation outcomes, so
/// identical components and layout give identical renderings.
pub proof fn lemma_mirrored_answer_same_text(q: Question, c: Seq<char>, a: Seq<char>)
    requires
        answer_mirrors(q),
        q_render_ok(q, c, a),
    ensures
        c == a,
{
    let (sc, tbl) = choose|sc: Seq<(Seq<char>, int, Option<int>)>, tbl: Seq<
        (Seq<char>, Option<(Seq<char>, Seq<char>)>),
    >| #[trigger] q_render_with(q, sc, tbl, c, a);
    assert(q_render_with(q, sc, tbl, c, a));
    if let Some(ans) = q.answer {
        assert(exprs_rep(ans.expressions@) == exprs_rep(q.expressions@));
        assert(strs(ans.layout@) == strs(q.layout@));
    }
}

/// A document each of whose questions carries a mirroring answer
/// generates every test with `content` equal to `answers`, whatever
/// the question selection.
pub proof fn lemma_mirrored_answers_equal(doc: Document, ord: Seq<int>, c: Seq<char>, a: Seq<char>)
    requires
        forall|i: int| 0 <= i < doc.questions@.len() ==> answer_mirrors(#[trigger] doc.questions@[i]),
        form_ok(doc, ord, c, a),
    ensures
        c == a,
{
    let pairs = choose|pairs: Seq<(Seq<char>, Seq<char>)>| #[trigger] form_with(
        doc,
        ord,
        pairs,
        c,
        a,
    );
    assert(form_with(doc, ord, pairs, c, a));
    assert forall|i: int| 0 <= i < pairs.len() implies (#[trigger] pairs[i]).0 == pairs[i].1 by {
        assert(q_render_ok(doc.questions@[ord[i]], pairs[i].0, pairs[i].1));
        lemma_mirrored_answer_same_text(doc.questions@[ord[i]], pairs[i].0, pairs[i].1);
    }
    assert(pair_lefts(pairs) =~= pair_rights(pairs));
}

} // verus!
