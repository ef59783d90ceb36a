//! The template parser. A template is literal layout text with embedded
//! question bodies between `|<q>` and `</q>|` markers; the answer-aware
//! entry point additionally pairs each question with an `|<a>` ... `</a>|`
//! block that follows it across at most whitespace. Inside a question
//! body, `|<v>name: kind = [min,max]</v>|` markers declare variables and
//! are removed, and `|<e>` ... `</e>|` markers delimit expressions, which
//! may not span line breaks.
use vstd::prelude::*;

verus! {

use crate::chars::{
    is_space_char, is_alpha_char, is_digit_char, is_word_char, matches_at, find_at, run_end,
    lemma_find_at, lemma_run_end, find_from, matches_prefix_at, sub_string, strs,
};
use crate::chars::{is_space, is_word, is_alpha, is_digit};

/// The opening marker of a question body.
pub open spec fn q_open() -> Seq<char> {
    seq!['|', '<', 'q', '>']
}

/// The closing marker of a question body.
pub open spec fn q_close() -> Seq<char> {
    seq!['<', '/', 'q', '>', '|']
}

/// The opening marker of an answer body.
pub open spec fn a_open() -> Seq<char> {
    seq!['|', '<', 'a', '>']
}

/// The closing marker of an answer body.
pub open spec fn a_close() -> Seq<char> {
    seq!['<', '/', 'a', '>', '|']
}

/// The opening marker of an expression.
pub open spec fn e_open() -> Seq<char> {
    seq!['|', '<', 'e', '>']
}

/// The closing marker of an expression.
pub open spec fn e_close() -> Seq<char> {
    seq!['<', '/', 'e', '>', '|']
}

/// The opening marker of a variable declaration.
pub open spec fn v_open() -> Seq<char> {
    seq!['|', '<', 'v', '>']
}

/// The closing bracket and marker of a variable declaration.
pub open spec fn v_close() -> Seq<char> {
    seq![']', '<', '/', 'v', '>', '|']
}

fn m_q_open() -> (r: &'static str)
    ensures
        r@ == q_open(),
{
    let s = "|<q>";
    proof {
        reveal_strlit("|<q>");
        assert(s@ =~= q_open());
    }
    s
}

fn m_q_close() -> (r: &'static str)
    ensures
        r@ == q_close(),
{
    let s = "</q>|";
    proof {
        reveal_strlit("</q>|");
        assert(s@ =~= q_close());
    }
    s
}

fn m_a_open() -> (r: &'static str)
    ensures
        r@ == a_open(),
{
    let s = "|<a>";
    proof {
        reveal_strlit("|<a>");
        assert(s@ =~= a_open());
    }
    s
}

fn m_a_close() -> (r: &'static str)
    ensures
        r@ == a_close(),
{
    let s = "</a>|";
    proof {
        reveal_strlit("</a>|");
        assert(s@ =~= a_close());
    }
    s
}

fn m_e_open() -> (r: &'static str)
    ensures
        r@ == e_open(),
{
    let s = "|<e>";
    proof {
        reveal_strlit("|<e>");
        assert(s@ =~= e_open());
    }
    s
}

fn m_e_close() -> (r: &'static str)
    ensures
        r@ == e_close(),
{
    let s = "</e>|";
    proof {
        reveal_strlit("</e>|");
        assert(s@ =~= e_close());
    }
    s
}

fn m_v_open() -> (r: &'static str)
    ensures
        r@ == v_open(),
{
    let s = "|<v>";
    proof {
        reveal_strlit("|<v>");
        assert(s@ =~= v_open());
    }
    s
}

fn m_v_close() -> (r: &'static str)
    ensures
        r@ == v_close(),
{
    let s = "]</v>|";
    proof {
        reveal_strlit("]</v>|");
        assert(s@ =~= v_close());
    }
    s
}

fn m_newline() -> (r: &'static str)
    ensures
        r@ == seq!['\n'],
{
    let s = "\n";
    proof {
        reveal_strlit("\n");
        assert(s@ =~= seq!['\n']);
    }
    s
}

/// The whitespace character class, as a predicate value.
pub open spec fn space_pred() -> spec_fn(char) -> bool {
    |c: char| is_space_char(c)
}

/// The identifier-continuation character class, as a predicate value.
pub open spec fn word_pred() -> spec_fn(char) -> bool {
    |c: char| is_word_char(c)
}

/// The letter character class, as a predicate value.
pub open spec fn alpha_pred() -> spec_fn(char) -> bool {
    |c: char| is_alpha_char(c)
}

/// The digit character class, as a predicate value.
pub open spec fn digit_pred() -> spec_fn(char) -> bool {
    |c: char| is_digit_char(c)
}

/// End of the whitespace run starting at `from`.
pub fn skip_spaces(text: &str, from: usize, n: usize) -> (r: usize)
    requires
        n == text@.len(),
        from <= n,
    ensures
        r == run_end(text@, from as int, space_pred()),
        from <= r <= n,
{
    let mut i = from;
    while i < n && is_space(text.get_char(i))
        invariant
            from <= i <= n,
            n == text@.len(),
            run_end(text@, from as int, space_pred()) == run_end(text@, i as int, space_pred()),
        decreases n - i,
    {
        i = i + 1;
    }
    i
}

/// End of the identifier-continuation run starting at `from`.
pub fn skip_word(text: &str, from: usize, n: usize) -> (r: usize)
    requires
        n == text@.len(),
        from <= n,
    ensures
        r == run_end(text@, from as int, word_pred()),
        from <= r <= n,
{
    let mut i = from;
    while i < n && is_word(text.get_char(i))
        invariant
            from <= i <= n,
            n == text@.len(),
            run_end(text@, from as int, word_pred()) == run_end(text@, i as int, word_pred()),
        decreases n - i,
    {
        i = i + 1;
    }
    i
}

/// End of the letter run starting at `from`.
pub fn skip_alpha(text: &str, from: usize, n: usize) -> (r: usize)
    requires
        n == text@.len(),
        from <= n,
    ensures
        r == run_end(text@, from as int, alpha_pred()),
        from <= r <= n,
{
    let mut i = from;
    while i < n && is_alpha(text.get_char(i))
        invariant
            from <= i <= n,
            n == text@.len(),
            run_end(text@, from as int, alpha_pred()) == run_end(text@, i as int, alpha_pred()),
        decreases n - i,
    {
        i = i + 1;
    }
    i
}

/// End of the digit run starting at `from`.
pub fn skip_digits(text: &str, from: usize, n: usize) -> (r: usize)
    requires
        n == text@.len(),
        from <= n,
    ensures
        r == run_end(text@, from as int, digit_pred()),
        from <= r <= n,
{
    let mut i = from;
    while i < n && is_digit(text.get_char(i))
        invariant
            from <= i <= n,
            n == text@.len(),
            run_end(text@, from as int, digit_pred()) == run_end(text@, i as int, digit_pred()),
        decreases n - i,
    {
        i = i + 1;
    }
    i
}

/// The first question match at or after `from`: the marker position and
/// the body end. The body is the shortest one closed by `</q>|`.
pub open spec fn find_question(s: Seq<char>, from: int) -> Option<(int, int)> {
    match find_at(s, q_open(), from) {
        Some(i) => match find_at(s, q_close(), i + 4) {
            Some(j) => Some((i, j)),
            None => None,
        },
        None => None,
    }
}

pub proof fn lemma_find_question(s: Seq<char>, from: int)
    requires
        0 <= from,
    ensures
        match find_question(s, from) {
            Some((i, j)) => from <= i && i + 4 <= j && j + 5 <= s.len(),
            None => true,
        },
{
    lemma_find_at(s, q_open(), from);
    if let Some(i) = find_at(s, q_open(), from) {
        lemma_find_at(s, q_close(), i + 4);
    }
}

/// The question bodies of the plain split, scanning from `from`.
pub open spec fn q_bodies(s: Seq<char>, from: int) -> Seq<Seq<char>>
    decreases s.len() - from,
    when 0 <= from
    via q_bodies_decreases
{
    match find_question(s, from) {
        Some((i, j)) => seq![s.subrange(i + 4, j)] + q_bodies(s, j + 5),
        None => seq![],
    }
}

#[via_fn]
proof fn q_bodies_decreases(s: Seq<char>, from: int) {
    lemma_find_question(s, from);
}

/// The layout segments of the plain split, scanning from `from`; always
/// one segment more than there are question bodies.
pub open spec fn q_layout(s: Seq<char>, from: int) -> Seq<Seq<char>>
    decreases s.len() - from,
    when 0 <= from
    via q_layout_decreases
{
    match find_question(s, from) {
        Some((i, j)) => seq![s.subrange(from, i)] + q_layout(s, j + 5),
        None => seq![s.subrange(from, s.len() as int)],
    }
}

#[via_fn]
proof fn q_layout_decreases(s: Seq<char>, from: int) {
    lemma_find_question(s, from);
}

/// Splits a template into question bodies and the layout around them.
pub fn split_questions(text: &str) -> (r: (Vec<String>, Vec<String>))
    ensures
        strs(r.0@) == q_bodies(text@, 0),
        strs(r.1@) == q_layout(text@, 0),
{
    let n = text.unicode_len();
    let mut bodies: Vec<String> = Vec::new();
    let mut layout: Vec<String> = Vec::new();
    let mut pos: usize = 0;
    proof {
        assert(strs(bodies@) + q_bodies(text@, 0) =~= q_bodies(text@, 0));
        assert(strs(layout@) + q_layout(text@, 0) =~= q_layout(text@, 0));
    }
    loop
        invariant
            pos <= n,
            n == text@.len(),
            q_bodies(text@, 0) == strs(bodies@) + q_bodies(text@, pos as int),
            q_layout(text@, 0) == strs(layout@) + q_layout(text@, pos as int),
        decreases n - pos,
    {
        let found: Option<(usize, usize)> = match find_from(text, m_q_open(), pos) {
            Some(i) => {
                proof {
                    lemma_find_at(text@, q_open(), pos as int);
                }
                match find_from(text, m_q_close(), i + 4) {
                    Some(j) => Some((i, j)),
                    None => None,
                }
            },
            None => None,
        };
        proof {
            lemma_find_question(text@, pos as int);
        }
        match found {
            Some((i, j)) => {
                proof {
                    assert(find_question(text@, pos as int) == Some((i as int, j as int)));
                }
                let body = sub_string(text, i + 4, j);
                let seg = sub_string(text, pos, i);
                let ghost old_bodies = strs(bodies@);
                let ghost old_layout = strs(layout@);
                bodies.push(body);
                layout.push(seg);
                proof {
                    assert(strs(bodies@) =~= old_bodies.push(text@.subrange(i + 4, j as int)));
                    assert(strs(layout@) =~= old_layout.push(text@.subrange(pos as int, i as int)));
                    assert(old_bodies + (seq![text@.subrange(i + 4, j as int)] + q_bodies(
                        text@,
                        j + 5,
                    )) =~= strs(bodies@) + q_bodies(text@, j + 5));
                    assert(old_layout + (seq![text@.subrange(pos as int, i as int)] + q_layout(
                        text@,
                        j + 5,
                    )) =~= strs(layout@) + q_layout(text@, j + 5));
                }
                pos = j + 5;
            },
            None => {
                let tail = sub_string(text, pos, n);
                let ghost old_layout = strs(layout@);
                layout.push(tail);
                proof {
                    assert(q_bodies(text@, pos as int) =~= Seq::<Seq<char>>::empty());
                    assert(strs(bodies@) + q_bodies(text@, pos as int) =~= strs(bodies@));
                    assert(strs(layout@) =~= old_layout.push(
                        text@.subrange(pos as int, n as int),
                    ));
                    assert(old_layout + (seq![text@.subrange(pos as int, n as int)])
                        =~= strs(layout@));
                    assert(old_layout + q_layout(text@, pos as int) =~= strs(layout@));
                }
                return (bodies, layout);
            },
        }
    }
}

/// Searches, from `from`, for a question-body close that is followed,
/// across at most whitespace, by an answer block: the result gives the
/// body end `j`, the answer-open position `w`, and the answer-body end
/// `k`. Body-close candidates are tried shortest first; a candidate not
/// followed by an answer open extends the body to the next candidate.
pub open spec fn qa_close(s: Seq<char>, from: int) -> Option<(int, int, int)>
    decreases s.len() - from,
    when 0 <= from
    via qa_close_decreases
{
    match find_at(s, q_close(), from) {
        Some(j) => {
            let w = run_end(s, j + 5, space_pred());
            if matches_at(s, a_open(), w) {
                match find_at(s, a_close(), w + 4) {
                    Some(k) => Some((j, w, k)),
                    None => None,
                }
            } else {
                qa_close(s, j + 1)
            }
        },
        None => None,
    }
}

#[via_fn]
proof fn qa_close_decreases(s: Seq<char>, from: int) {
    lemma_find_at(s, q_close(), from);
}

pub proof fn lemma_qa_close(s: Seq<char>, from: int)
    requires
        0 <= from,
    ensures
        match qa_close(s, from) {
            Some((j, w, k)) => from <= j && j + 5 <= w && w + 4 <= k && k + 5 <= s.len(),
            None => true,
        },
    decreases s.len() - from,
{
    lemma_find_at(s, q_close(), from);
    if let Some(j) = find_at(s, q_close(), from) {
        lemma_run_end(s, j + 5, space_pred());
        let w = run_end(s, j + 5, space_pred());
        if matches_at(s, a_open(), w) {
            lemma_find_at(s, a_close(), w + 4);
        } else {
            lemma_qa_close(s, j + 1);
        }
    }
}

/// The first question-with-answer match at or after `from`: the question
/// open `i`, body end `j`, answer open `w`, and answer body end `k`.
pub open spec fn find_qa(s: Seq<char>, from: int) -> Option<(int, int, int, int)> {
    match find_at(s, q_open(), from) {
        Some(i) => match qa_close(s, i + 4) {
            Some((j, w, k)) => Some((i, j, w, k)),
            None => None,
        },
        None => None,
    }
}

pub proof fn lemma_find_qa(s: Seq<char>, from: int)
    requires
        0 <= from,
    ensures
        match find_qa(s, from) {
            Some((i, j, w, k)) => from <= i && i + 4 <= j && j + 5 <= w && w + 4 <= k && k + 5
                <= s.len(),
            None => true,
        },
{
    lemma_find_at(s, q_open(), from);
    if let Some(i) = find_at(s, q_open(), from) {
        lemma_qa_close(s, i + 4);
    }
}

/// The question bodies of the answer-aware split.
pub open spec fn qa_q_bodies(s: Seq<char>, from: int) -> Seq<Seq<char>>
    decreases s.len() - from,
    when 0 <= from
    via qa_q_bodies_decreases
{
    match find_qa(s, from) {
        Some((i, j, w, k)) => seq![s.subrange(i + 4, j)] + qa_q_bodies(s, k + 5),
        None => seq![],
    }
}

#[via_fn]
proof fn qa_q_bodies_decreases(s: Seq<char>, from: int) {
    lemma_find_qa(s, from);
}

/// The answer bodies of the answer-aware split, aligned with the
/// question bodies.
pub open spec fn qa_a_bodies(s: Seq<char>, from: int) -> Seq<Seq<char>>
    decreases s.len() - from,
    when 0 <= from
    via qa_a_bodies_decreases
{
    match find_qa(s, from) {
        Some((i, j, w, k)) => seq![s.subrange(w + 4, k)] + qa_a_bodies(s, k + 5),
        None => seq![],
    }
}

#[via_fn]
proof fn qa_a_bodies_decreases(s: Seq<char>, from: int) {
    lemma_find_qa(s, from);
}

/// The layout segments of the answer-aware split; one more than there
/// are question bodies.
pub open spec fn qa_layout(s: Seq<char>, from: int) -> Seq<Seq<char>>
    decreases s.len() - from,
    when 0 <= from
    via qa_layout_decreases
{
    match find_qa(s, from) {
        Some((i, j, w, k)) => seq![s.subrange(from, i)] + qa_layout(s, k + 5),
        None => seq![s.subrange(from, s.len() as int)],
    }
}

#[via_fn]
proof fn qa_layout_decreases(s: Seq<char>, from: int) {
    lemma_find_qa(s, from);
}

/// Finds the first question-with-answer match at or after `from`.
fn find_qa_exec(text: &str, from: usize, n: usize) -> (r: Option<(usize, usize, usize, usize)>)
    requires
        n == text@.len(),
        from <= n,
    ensures
        match r {
            Some((i, j, w, k)) => find_qa(text@, from as int) == Some(
                (i as int, j as int, w as int, k as int),
            ),
            None => find_qa(text@, from as int) is None,
        },
{
    let i = match find_from(text, m_q_open(), from) {
        Some(i) => i,
        None => {
            return None;
        },
    };
    proof {
        lemma_find_at(text@, q_open(), from as int);
    }
    let mut pos: usize = i + 4;
    loop
        invariant
            i + 4 <= pos <= n,
            n == text@.len(),
            find_at(text@, q_open(), from as int) == Some(i as int),
            qa_close(text@, (i + 4) as int) == qa_close(text@, pos as int),
        decreases n - pos,
    {
        let j = match find_from(text, m_q_close(), pos) {
            Some(j) => j,
            None => {
                return None;
            },
        };
        proof {
            lemma_find_at(text@, q_close(), pos as int);
        }
        let w = skip_spaces(text, j + 5, n);
        let a_open_here = if n - w < 4 {
            proof {
                assert(!matches_at(text@, a_open(), w as int));
            }
            false
        } else {
            matches_prefix_at(text, m_a_open(), w, n, 4)
        };
        if a_open_here {
            match find_from(text, m_a_close(), w + 4) {
                Some(k) => {
                    return Some((i, j, w, k));
                },
                None => {
                    return None;
                },
            }
        }
        pos = j + 1;
    }
}

/// Splits a template into question bodies, answer bodies, and layout,
/// recognizing a question only when an answer block follows it.
pub fn split_questions_answers(text: &str) -> (r: (Vec<String>, Vec<String>, Vec<String>))
    ensures
        strs(r.0@) == qa_q_bodies(text@, 0),
        strs(r.1@) == qa_a_bodies(text@, 0),
        strs(r.2@) == qa_layout(text@, 0),
{
    let n = text.unicode_len();
    let mut bodies: Vec<String> = Vec::new();
    let mut answers: Vec<String> = Vec::new();
    let mut layout: Vec<String> = Vec::new();
    let mut pos: usize = 0;
    proof {
        assert(strs(bodies@) + qa_q_bodies(text@, 0) =~= qa_q_bodies(text@, 0));
        assert(strs(answers@) + qa_a_bodies(text@, 0) =~= qa_a_bodies(text@, 0));
        assert(strs(layout@) + qa_layout(text@, 0) =~= qa_layout(text@, 0));
    }
    loop
        invariant
            pos <= n,
            n == text@.len(),
            qa_q_bodies(text@, 0) == strs(bodies@) + qa_q_bodies(text@, pos as int),
            qa_a_bodies(text@, 0) == strs(answers@) + qa_a_bodies(text@, pos as int),
            qa_layout(text@, 0) == strs(layout@) + qa_layout(text@, pos as int),
        decreases n - pos,
    {
        proof {
            lemma_find_qa(text@, pos as int);
        }
        match find_qa_exec(text, pos, n) {
            Some((i, j, w, k)) => {
                let body = sub_string(text, i + 4, j);
                let abody = sub_string(text, w + 4, k);
                let seg = sub_string(text, pos, i);
                let ghost old_bodies = strs(bodies@);
                let ghost old_answers = strs(answers@);
                let ghost old_layout = strs(layout@);
                bodies.push(body);
                answers.push(abody);
                layout.push(seg);
                proof {
                    assert(strs(bodies@) =~= old_bodies.push(text@.subrange(i + 4, j as int)));
                    assert(strs(answers@) =~= old_answers.push(text@.subrange(w + 4, k as int)));
                    assert(strs(layout@) =~= old_layout.push(text@.subrange(pos as int, i as int)));
                    assert(old_bodies + (seq![text@.subrange(i + 4, j as int)] + qa_q_bodies(
                        text@,
                        k + 5,
                    )) =~= strs(bodies@) + qa_q_bodies(text@, k + 5));
                    assert(old_answers + (seq![text@.subrange(w + 4, k as int)] + qa_a_bodies(
                        text@,
                        k + 5,
                    )) =~= strs(answers@) + qa_a_bodies(text@, k + 5));
                    assert(old_layout + (seq![text@.subrange(pos as int, i as int)] + qa_layout(
                        text@,
                        k + 5,
                    )) =~= strs(layout@) + qa_layout(text@, k + 5));
                }
                pos = k + 5;
            },
            None => {
                let tail = sub_string(text, pos, n);
                let ghost old_layout = strs(layout@);
                layout.push(tail);
                proof {
                    assert(qa_q_bodies(text@, pos as int) =~= Seq::<Seq<char>>::empty());
                    assert(qa_a_bodies(text@, pos as int) =~= Seq::<Seq<char>>::empty());
                    assert(strs(bodies@) + qa_q_bodies(text@, pos as int) =~= strs(bodies@));
                    assert(strs(answers@) + qa_a_bodies(text@, pos as int) =~= strs(answers@));
                    assert(strs(layout@) =~= old_layout.push(
                        text@.subrange(pos as int, n as int),
                    ));
                    assert(old_layout + (seq![text@.subrange(pos as int, n as int)])
                        =~= strs(layout@));
                    assert(old_layout + qa_layout(text@, pos as int) =~= strs(layout@));
                }
                return (bodies, answers, layout);
            },
        }
    }
}

/// No line break occurs in `s` at positions `[a, b)`.
pub open spec fn nl_free(s: Seq<char>, a: int, b: int) -> bool {
    forall|k: int| a <= k < b ==> s[k] != '\n'
}

/// The first expression match at or after `from`: the marker position
/// and the body end. An expression body is the shortest one closed by
/// `</e>|` and may not contain a line break; an open marker whose body
/// would break that rule is skipped as literal text.
pub open spec fn find_expr(s: Seq<char>, from: int) -> Option<(int, int)>
    decreases s.len() - from,
    when 0 <= from
    via find_expr_decreases
{
    match find_at(s, e_open(), from) {
        Some(i) => match find_at(s, e_close(), i + 4) {
            Some(j) => if nl_free(s, i + 4, j) {
                Some((i, j))
            } else {
                find_expr(s, i + 1)
            },
            None => None,
        },
        None => None,
    }
}

#[via_fn]
proof fn find_expr_decreases(s: Seq<char>, from: int) {
    lemma_find_at(s, e_open(), from);
}

pub proof fn lemma_find_expr(s: Seq<char>, from: int)
    requires
        0 <= from,
    ensures
        match find_expr(s, from) {
            Some((i, j)) => from <= i && i + 4 <= j && j + 5 <= s.len() && matches_at(
                s,
                e_open(),
                i,
            ) && matches_at(s, e_close(), j),
            None => true,
        },
    decreases s.len() - from,
{
    lemma_find_at(s, e_open(), from);
    if let Some(i) = find_at(s, e_open(), from) {
        lemma_find_at(s, e_close(), i + 4);
        if let Some(j) = find_at(s, e_close(), i + 4) {
            if !nl_free(s, i + 4, j) {
                lemma_find_expr(s, i + 1);
            }
        }
    }
}

/// The expression bodies of a question or answer body.
pub open spec fn e_bodies(s: Seq<char>, from: int) -> Seq<Seq<char>>
    decreases s.len() - from,
    when 0 <= from
    via e_bodies_decreases
{
    match find_expr(s, from) {
        Some((i, j)) => seq![s.subrange(i + 4, j)] + e_bodies(s, j + 5),
        None => seq![],
    }
}

#[via_fn]
proof fn e_bodies_decreases(s: Seq<char>, from: int) {
    lemma_find_expr(s, from);
}

/// The layout segments around the expressions; one segment more than
/// there are expression bodies.
pub open spec fn e_layout(s: Seq<char>, from: int) -> Seq<Seq<char>>
    decreases s.len() - from,
    when 0 <= from
    via e_layout_decreases
{
    match find_expr(s, from) {
        Some((i, j)) => seq![s.subrange(from, i)] + e_layout(s, j + 5),
        None => seq![s.subrange(from, s.len() as int)],
    }
}

#[via_fn]
proof fn e_layout_decreases(s: Seq<char>, from: int) {
    lemma_find_expr(s, from);
}

/// Finds the first expression match at or after `from`.
fn find_expr_exec(text: &str, from: usize, n: usize) -> (r: Option<(usize, usize)>)
    requires
        n == text@.len(),
        from <= n,
    ensures
        match r {
            Some((i, j)) => find_expr(text@, from as int) == Some((i as int, j as int)),
            None => find_expr(text@, from as int) is None,
        },
{
    let mut pos = from;
    loop
        invariant
            from <= pos <= n,
            n == text@.len(),
            find_expr(text@, from as int) == find_expr(text@, pos as int),
        decreases n - pos,
    {
        let i = match find_from(text, m_e_open(), pos) {
            Some(i) => i,
            None => {
                return None;
            },
        };
        proof {
            lemma_find_at(text@, e_open(), pos as int);
        }
        let j = match find_from(text, m_e_close(), i + 4) {
            Some(j) => j,
            None => {
                return None;
            },
        };
        proof {
            lemma_find_at(text@, e_close(), (i + 4) as int);
        }
        let nl = find_from(text, m_newline(), i + 4);
        proof {
            lemma_find_at(text@, seq!['\n'], (i + 4) as int);
        }
        match nl {
            Some(p) if p < j => {
                proof {
                    assert(matches_at(text@, seq!['\n'], p as int));
                    assert(text@[p as int + 0] == seq!['\n'][0]);
                    assert(text@[p as int] == '\n');
                    assert(!nl_free(text@, i + 4, j as int));
                }
                pos = i + 1;
            },
            _ => {
                proof {
                    assert forall|k: int| i + 4 <= k < j implies text@[k] != '\n' by {
                        if text@[k] == '\n' {
                            assert(matches_at(text@, seq!['\n'], k));
                        }
                    }
                }
                return Some((i, j));
            },
        }
    }
}

/// Splits a body into expression bodies and the layout around them.
pub fn split_exprs(text: &str) -> (r: (Vec<String>, Vec<String>))
    ensures
        strs(r.0@) == e_bodies(text@, 0),
        strs(r.1@) == e_layout(text@, 0),
{
    let n = text.unicode_len();
    let mut bodies: Vec<String> = Vec::new();
    let mut layout: Vec<String> = Vec::new();
    let mut pos: usize = 0;
    proof {
        assert(strs(bodies@) + e_bodies(text@, 0) =~= e_bodies(text@, 0));
        assert(strs(layout@) + e_layout(text@, 0) =~= e_layout(text@, 0));
    }
    loop
        invariant
            pos <= n,
            n == text@.len(),
            e_bodies(text@, 0) == strs(bodies@) + e_bodies(text@, pos as int),
            e_layout(text@, 0) == strs(layout@) + e_layout(text@, pos as int),
        decreases n - pos,
    {
        proof {
            lemma_find_expr(text@, pos as int);
        }
        match find_expr_exec(text, pos, n) {
            Some((i, j)) => {
                let body = sub_string(text, i + 4, j);
                let seg = sub_string(text, pos, i);
                let ghost old_bodies = strs(bodies@);
                let ghost old_layout = strs(layout@);
                bodies.push(body);
                layout.push(seg);
                proof {
                    assert(strs(bodies@) =~= old_bodies.push(text@.subrange(i + 4, j as int)));
                    assert(strs(layout@) =~= old_layout.push(text@.subrange(pos as int, i as int)));
                    assert(old_bodies + (seq![text@.subrange(i + 4, j as int)] + e_bodies(
                        text@,
                        j + 5,
                    )) =~= strs(bodies@) + e_bodies(text@, j + 5));
                    assert(old_layout + (seq![text@.subrange(pos as int, i as int)] + e_layout(
                        text@,
                        j + 5,
                    )) =~= strs(layout@) + e_layout(text@, j + 5));
                }
                pos = j + 5;
            },
            None => {
                let tail = sub_string(text, pos, n);
                let ghost old_layout = strs(layout@);
                layout.push(tail);
                proof {
                    assert(e_bodies(text@, pos as int) =~= Seq::<Seq<char>>::empty());
                    assert(strs(bodies@) + e_bodies(text@, pos as int) =~= strs(bodies@));
                    assert(strs(layout@) =~= old_layout.push(
                        text@.subrange(pos as int, n as int),
                    ));
                    assert(old_layout + (seq![text@.subrange(pos as int, n as int)])
                        =~= strs(layout@));
                    assert(old_layout + e_layout(text@, pos as int) =~= strs(layout@));
                }
                return (bodies, layout);
            },
        }
    }
}

/// The first identifier in `s` at or after `from`: a letter followed by
/// the run of letters, digits and underscores after it.
pub open spec fn find_ident(s: Seq<char>, from: int) -> Option<(int, int)>
    decreases s.len() - from,
    when 0 <= from
{
    if from >= s.len() {
        None
    } else if is_alpha_char(s[from]) {
        Some((from, run_end(s, from + 1, word_pred())))
    } else {
        find_ident(s, from + 1)
    }
}

pub proof fn lemma_find_ident(s: Seq<char>, from: int)
    requires
        0 <= from,
    ensures
        match find_ident(s, from) {
            Some((a, b)) => from <= a && a + 1 <= b <= s.len(),
            None => true,
        },
    decreases s.len() - from,
{
    if from >= s.len() {
    } else if is_alpha_char(s[from]) {
        lemma_run_end(s, from + 1, word_pred());
    } else {
        lemma_find_ident(s, from + 1);
    }
}

/// The components of an expression source: literal fragments and
/// identifiers, alternating, identifiers marked true. The fragments
/// concatenate back to the source.
pub open spec fn token_spans(s: Seq<char>, from: int) -> Seq<(bool, Seq<char>)>
    decreases s.len() - from,
    when 0 <= from
    via token_spans_decreases
{
    match find_ident(s, from) {
        Some((a, b)) => seq![(false, s.subrange(from, a)), (true, s.subrange(a, b))] + token_spans(
            s,
            b,
        ),
        None => seq![(false, s.subrange(from, s.len() as int))],
    }
}

#[via_fn]
proof fn token_spans_decreases(s: Seq<char>, from: int) {
    lemma_find_ident(s, from);
}

/// The identifiers of an expression source, in order, with repeats.
pub open spec fn ident_names(s: Seq<char>, from: int) -> Seq<Seq<char>>
    decreases s.len() - from,
    when 0 <= from
    via ident_names_decreases
{
    match find_ident(s, from) {
        Some((a, b)) => seq![s.subrange(a, b)] + ident_names(s, b),
        None => seq![],
    }
}

#[via_fn]
proof fn ident_names_decreases(s: Seq<char>, from: int) {
    lemma_find_ident(s, from);
}

/// Finds the first identifier at or after `from`.
fn find_ident_exec(text: &str, from: usize, n: usize) -> (r: Option<(usize, usize)>)
    requires
        n == text@.len(),
        from <= n,
    ensures
        match r {
            Some((a, b)) => find_ident(text@, from as int) == Some((a as int, b as int)) && a < b
                <= n,
            None => find_ident(text@, from as int) is None,
        },
{
    let mut i = from;
    loop
        invariant
            from <= i <= n,
            n == text@.len(),
            find_ident(text@, from as int) == find_ident(text@, i as int),
        decreases n - i,
    {
        if i >= n {
            return None;
        }
        if is_alpha(text.get_char(i)) {
            let b = skip_word(text, i + 1, n);
            return Some((i, b));
        }
        i = i + 1;
    }
}

/// Splits an expression source into its components, appending each
/// identifier's name to `names`.
pub fn process_expression(src: &str, names: &mut Vec<String>) -> (e: crate::model::Expression)
    ensures
        crate::model::comps_rep(e.expression@) == token_spans(src@, 0),
        strs(final(names)@) == strs(old(names)@) + ident_names(src@, 0),
{
    let n = src.unicode_len();
    let mut comps: Vec<crate::model::ExpComp> = Vec::new();
    let mut pos: usize = 0;
    proof {
        assert(crate::model::comps_rep(comps@) + token_spans(src@, 0) =~= token_spans(src@, 0));
        assert(strs(names@) + ident_names(src@, 0) =~= strs(old(names)@) + ident_names(src@, 0));
    }
    loop
        invariant
            pos <= n,
            n == src@.len(),
            token_spans(src@, 0) == crate::model::comps_rep(comps@) + token_spans(
                src@,
                pos as int,
            ),
            strs(old(names)@) + ident_names(src@, 0) == strs(names@) + ident_names(
                src@,
                pos as int,
            ),
        decreases n - pos,
    {
        proof {
            lemma_find_ident(src@, pos as int);
        }
        match find_ident_exec(src, pos, n) {
            Some((a, b)) => {
                let lit = sub_string(src, pos, a);
                let name = sub_string(src, a, b);
                let name2 = sub_string(src, a, b);
                let ghost old_comps = crate::model::comps_rep(comps@);
                let ghost old_names = strs(names@);
                comps.push(crate::model::ExpComp::Other(lit));
                comps.push(crate::model::ExpComp::Var(name));
                names.push(name2);
                proof {
                    assert(crate::model::comps_rep(comps@) =~= old_comps.push(
                        (false, src@.subrange(pos as int, a as int)),
                    ).push((true, src@.subrange(a as int, b as int))));
                    assert(strs(names@) =~= old_names.push(src@.subrange(a as int, b as int)));
                    assert(old_comps + (seq![
                        (false, src@.subrange(pos as int, a as int)),
                        (true, src@.subrange(a as int, b as int)),
                    ] + token_spans(src@, b as int)) =~= crate::model::comps_rep(comps@)
                        + token_spans(src@, b as int));
                    assert(old_names + (seq![src@.subrange(a as int, b as int)] + ident_names(
                        src@,
                        b as int,
                    )) =~= strs(names@) + ident_names(src@, b as int));
                }
                pos = b;
            },
            None => {
                let tail = sub_string(src, pos, n);
                let ghost old_comps = crate::model::comps_rep(comps@);
                comps.push(crate::model::ExpComp::Other(tail));
                proof {
                    assert(crate::model::comps_rep(comps@) =~= old_comps.push(
                        (false, src@.subrange(pos as int, n as int)),
                    ));
                    assert(old_comps + (seq![(false, src@.subrange(pos as int, n as int))])
                        =~= crate::model::comps_rep(comps@));
                    assert(ident_names(src@, pos as int) =~= Seq::<Seq<char>>::empty());
                    assert(strs(names@) + ident_names(src@, pos as int) =~= strs(names@));
                }
                return crate::model::Expression { expression: comps };
            },
        }
    }
}

/// The expression component lists of a sequence of expression sources.
pub open spec fn tokens_of_bodies(bs: Seq<Seq<char>>) -> Seq<Seq<(bool, Seq<char>)>> {
    bs.map_values(|b: Seq<char>| token_spans(b, 0))
}

/// The identifiers of the first `t` expression sources, concatenated in
/// order.
pub open spec fn names_of_prefix(bs: Seq<Seq<char>>, t: int) -> Seq<Seq<char>>
    decreases t,
{
    if t <= 0 {
        seq![]
    } else {
        names_of_prefix(bs, t - 1) + ident_names(bs[t - 1], 0)
    }
}

/// The identifiers of all expression sources, in order of appearance.
pub open spec fn names_of_bodies(bs: Seq<Seq<char>>) -> Seq<Seq<char>> {
    names_of_prefix(bs, bs.len() as int)
}

/// The component representations of a sequence of expressions.
pub open spec fn exprs_rep(es: Seq<crate::model::Expression>) -> Seq<Seq<(bool, Seq<char>)>> {
    es.map_values(|e: crate::model::Expression| crate::model::comps_rep(e.expression@))
}

/// Extracts the expressions, layout and identifier names of a body.
pub fn content_of(text: &str) -> (r: (Vec<crate::model::Expression>, Vec<String>, Vec<String>))
    ensures
        exprs_rep(r.0@) == tokens_of_bodies(e_bodies(text@, 0)),
        strs(r.1@) == e_layout(text@, 0),
        strs(r.2@) == names_of_bodies(e_bodies(text@, 0)),
{
    let (bodies, layout) = split_exprs(text);
    let ghost bs = e_bodies(text@, 0);
    let mut exprs: Vec<crate::model::Expression> = Vec::new();
    let mut names: Vec<String> = Vec::new();
    let mut t: usize = 0;
    while t < bodies.len()
        invariant
            t <= bodies@.len(),
            strs(bodies@) == bs,
            exprs_rep(exprs@) == tokens_of_bodies(bs).take(t as int),
            strs(names@) == names_of_prefix(bs, t as int),
        decreases bodies@.len() - t,
    {
        let ghost old_exprs = exprs_rep(exprs@);
        let e = process_expression(bodies[t].as_str(), &mut names);
        exprs.push(e);
        proof {
            assert(bodies@[t as int]@ == bs[t as int]);
            assert(exprs_rep(exprs@) =~= old_exprs.push(token_spans(bs[t as int], 0)));
            assert(tokens_of_bodies(bs).take(t + 1) =~= tokens_of_bodies(bs).take(t as int).push(
                token_spans(bs[t as int], 0),
            ));
        }
        t = t + 1;
    }
    proof {
        assert(tokens_of_bodies(bs).take(t as int) =~= tokens_of_bodies(bs));
    }
    (exprs, layout, names)
}

/// Processes an answer body: its expressions and the layout around them.
/// Identifier names in answer expressions register no variables; an
/// answer shares its parent question's scope.
pub fn process_answer(answer: &str) -> (r: crate::model::Answer)
    ensures
        exprs_rep(r.expressions@) == tokens_of_bodies(e_bodies(answer@, 0)),
        strs(r.layout@) == e_layout(answer@, 0),
        crate::model::wf_answer(r),
{
    let (exprs, layout, _names) = content_of(answer);
    proof {
        lemma_e_layout_len(answer@, 0);
        assert(strs(layout@).len() == layout@.len());
        assert(exprs_rep(exprs@).len() == exprs@.len());
        assert(tokens_of_bodies(e_bodies(answer@, 0)).len() == e_bodies(answer@, 0).len());
    }
    crate::model::Answer { expressions: exprs, layout }
}

/// The layout always holds one segment more than there are bodies.
pub proof fn lemma_e_layout_len(s: Seq<char>, from: int)
    requires
        0 <= from,
    ensures
        e_layout(s, from).len() == e_bodies(s, from).len() + 1,
    decreases s.len() - from,
{
    lemma_find_expr(s, from);
    if let Some((i, j)) = find_expr(s, from) {
        lemma_e_layout_len(s, j + 5);
    }
}

/// The capture positions of one variable declaration
/// `|<v>name: kind = [min,max]</v>|`: the marker start, the spans of the
/// name, the kind, and the two signed bounds, and the position just
/// after the closing marker.
pub struct DeclSpans {
    pub start: int,
    pub name_start: int,
    pub name_end: int,
    pub kind_start: int,
    pub kind_end: int,
    pub min_start: int,
    pub min_end: int,
    pub max_start: int,
    pub max_end: int,
    pub end: int,
}

/// Attempts to read a declaration whose `|<v>` marker stands at `i`:
/// a name (letter, then word characters), a colon, an optional
/// whitespace-framed kind of letters, `=`, `[`, two signed integers
/// separated by a comma, and `]</v>|`.
pub open spec fn decl_at(s: Seq<char>, i: int) -> Option<DeclSpans> {
    let ns = i + 4;
    if !(ns < s.len() && is_alpha_char(s[ns])) {
        None
    } else {
        let ne = run_end(s, ns + 1, word_pred());
        if !(ne < s.len() && s[ne] == ':') {
            None
        } else {
            let ks = run_end(s, ne + 1, space_pred());
            let ke = run_end(s, ks, alpha_pred());
            let eq = run_end(s, ke, space_pred());
            if !(eq < s.len() && s[eq] == '=') {
                None
            } else {
                let br = run_end(s, eq + 1, space_pred());
                if !(br < s.len() && s[br] == '[') {
                    None
                } else {
                    let ms = br + 1;
                    let md = if ms < s.len() && s[ms] == '-' {
                        ms + 1
                    } else {
                        ms
                    };
                    let me = run_end(s, md, digit_pred());
                    if !(md <= s.len() && me > md && me < s.len() && s[me] == ',') {
                        None
                    } else {
                        let xs = me + 1;
                        let xd = if xs < s.len() && s[xs] == '-' {
                            xs + 1
                        } else {
                            xs
                        };
                        let xe = run_end(s, xd, digit_pred());
                        if !(xd <= s.len() && xe > xd && matches_at(s, v_close(), xe)) {
                            None
                        } else {
                            Some(
                                DeclSpans {
                                    start: i,
                                    name_start: ns,
                                    name_end: ne,
                                    kind_start: ks,
                                    kind_end: ke,
                                    min_start: ms,
                                    min_end: me,
                                    max_start: xs,
                                    max_end: xe,
                                    end: xe + 6,
                                },
                            )
                        }
                    }
                }
            }
        }
    }
}

/// A signed bound span holds an optional minus and then only digits.
pub open spec fn signed_span(s: Seq<char>, a: int, b: int) -> bool {
    let d = if s[a] == '-' {
        a + 1
    } else {
        a
    };
    &&& 0 <= a < b <= s.len()
    &&& d < b
    &&& forall|k: int| d <= k < b ==> is_digit_char(s[k])
}

/// The structural facts that hold of every recognized declaration.
pub open spec fn decl_wf(s: Seq<char>, d: DeclSpans) -> bool {
    &&& 0 <= d.start
    &&& d.start + 4 == d.name_start
    &&& d.name_start < d.name_end <= d.kind_start <= d.kind_end <= d.min_start
    &&& d.min_start < d.min_end < d.max_start <= d.max_end
    &&& d.end == d.max_end + 6
    &&& d.end <= s.len()
    &&& signed_span(s, d.min_start, d.min_end)
    &&& signed_span(s, d.max_start, d.max_end)
    &&& forall|k: int| d.kind_start <= k < d.kind_end ==> is_alpha_char(s[k])
}

pub proof fn lemma_decl_at(s: Seq<char>, i: int)
    requires
        0 <= i,
    ensures
        match decl_at(s, i) {
            Some(d) => decl_wf(s, d) && d.start == i,
            None => true,
        },
{
    let ns = i + 4;
    if ns < s.len() && is_alpha_char(s[ns]) {
        lemma_run_end(s, ns + 1, word_pred());
        let ne = run_end(s, ns + 1, word_pred());
        if ne < s.len() && s[ne] == ':' {
            lemma_run_end(s, ne + 1, space_pred());
            let ks = run_end(s, ne + 1, space_pred());
            lemma_run_end(s, ks, alpha_pred());
            let ke = run_end(s, ks, alpha_pred());
            lemma_run_end(s, ke, space_pred());
            let eq = run_end(s, ke, space_pred());
            if eq < s.len() && s[eq] == '=' {
                lemma_run_end(s, eq + 1, space_pred());
                let br = run_end(s, eq + 1, space_pred());
                if br < s.len() && s[br] == '[' {
                    let ms = br + 1;
                    let md = if ms < s.len() && s[ms] == '-' {
                        ms + 1
                    } else {
                        ms
                    };
                    if md <= s.len() {
                        lemma_run_end(s, md, digit_pred());
                        let me = run_end(s, md, digit_pred());
                        if me > md && me < s.len() && s[me] == ',' {
                            let xs = me + 1;
                            let xd = if xs < s.len() && s[xs] == '-' {
                                xs + 1
                            } else {
                                xs
                            };
                            if xd <= s.len() {
                                lemma_run_end(s, xd, digit_pred());
                            }
                        }
                    }
                }
            }
        }
    }
}

/// The first declaration at or after `from`; an open marker that heads
/// no well-formed declaration is skipped as literal text.
pub open spec fn find_decl(s: Seq<char>, from: int) -> Option<DeclSpans>
    decreases s.len() - from,
    when 0 <= from
    via find_decl_decreases
{
    match find_at(s, v_open(), from) {
        Some(i) => match decl_at(s, i) {
            Some(d) => Some(d),
            None => find_decl(s, i + 1),
        },
        None => None,
    }
}

#[via_fn]
proof fn find_decl_decreases(s: Seq<char>, from: int) {
    lemma_find_at(s, v_open(), from);
}

pub proof fn lemma_find_decl(s: Seq<char>, from: int)
    requires
        0 <= from,
    ensures
        match find_decl(s, from) {
            Some(d) => decl_wf(s, d) && from <= d.start,
            None => true,
        },
    decreases s.len() - from,
{
    lemma_find_at(s, v_open(), from);
    if let Some(i) = find_at(s, v_open(), from) {
        lemma_decl_at(s, i);
        if decl_at(s, i) is None {
            lemma_find_decl(s, i + 1);
        }
    }
}

/// All declarations of a question body, in order of appearance.
pub open spec fn decl_list(s: Seq<char>, from: int) -> Seq<DeclSpans>
    decreases s.len() - from,
    when 0 <= from
    via decl_list_decreases
{
    match find_decl(s, from) {
        Some(d) => seq![d] + decl_list(s, d.end),
        None => seq![],
    }
}

#[via_fn]
proof fn decl_list_decreases(s: Seq<char>, from: int) {
    lemma_find_decl(s, from);
}

/// The body text with every declaration removed.
pub open spec fn stripped(s: Seq<char>, from: int) -> Seq<char>
    decreases s.len() - from,
    when 0 <= from
    via stripped_decreases
{
    match find_decl(s, from) {
        Some(d) => s.subrange(from, d.start) + stripped(s, d.end),
        None => s.subrange(from, s.len() as int),
    }
}

#[via_fn]
proof fn stripped_decreases(s: Seq<char>, from: int) {
    lemma_find_decl(s, from);
}

/// The signed value of a bound span.
pub open spec fn span_val(s: Seq<char>, a: int, b: int) -> int {
    if s[a] == '-' {
        -crate::nums::digits_val(s.subrange(a + 1, b))
    } else {
        crate::nums::digits_val(s.subrange(a, b))
    }
}

/// The variable a declaration denotes: name, kind, and bound values.
pub open spec fn decl_var(s: Seq<char>, d: DeclSpans) -> (Seq<char>, Seq<char>, int, int) {
    (
        s.subrange(d.name_start, d.name_end),
        s.subrange(d.kind_start, d.kind_end),
        span_val(s, d.min_start, d.min_end),
        span_val(s, d.max_start, d.max_end),
    )
}

/// A value representable by the machine integer type of the bounds.
pub open spec fn fits_i64(v: int) -> bool {
    i64::MIN <= v <= i64::MAX
}

/// Both bound values of a declaration fit the machine integer type.
pub open spec fn decl_fits(s: Seq<char>, d: DeclSpans) -> bool {
    fits_i64(span_val(s, d.min_start, d.min_end)) && fits_i64(span_val(s, d.max_start, d.max_end))
}

/// Every declaration of the body has machine-representable bounds.
pub open spec fn body_decls_fit(s: Seq<char>) -> bool {
    forall|t: int| 0 <= t < decl_list(s, 0).len() ==> decl_fits(s, #[trigger] decl_list(s, 0)[t])
}

/// The capture positions of a recognized declaration, as machine words.
struct DeclM {
    start: usize,
    name_start: usize,
    name_end: usize,
    kind_start: usize,
    kind_end: usize,
    min_start: usize,
    min_end: usize,
    max_start: usize,
    max_end: usize,
    end: usize,
}

impl DeclM {
    /// The spans this match denotes.
    spec fn spans(&self) -> DeclSpans {
        DeclSpans {
            start: self.start as int,
            name_start: self.name_start as int,
            name_end: self.name_end as int,
            kind_start: self.kind_start as int,
            kind_end: self.kind_end as int,
            min_start: self.min_start as int,
            min_end: self.min_end as int,
            max_start: self.max_start as int,
            max_end: self.max_end as int,
            end: self.end as int,
        }
    }
}

/// Attempts to read a declaration whose marker stands at `i`.
fn decl_at_exec(text: &str, i: usize, n: usize) -> (r: Option<DeclM>)
    requires
        n == text@.len(),
        i + 4 <= n,
    ensures
        match r {
            Some(dm) => decl_at(text@, i as int) == Some(dm.spans()),
            None => decl_at(text@, i as int) is None,
        },
{
    let ns = i + 4;
    if !(ns < n && is_alpha(text.get_char(ns))) {
        return None;
    }
    let ne = skip_word(text, ns + 1, n);
    if !(ne < n && text.get_char(ne) == ':') {
        return None;
    }
    let ks = skip_spaces(text, ne + 1, n);
    let ke = skip_alpha(text, ks, n);
    let eq = skip_spaces(text, ke, n);
    if !(eq < n && text.get_char(eq) == '=') {
        return None;
    }
    let br = skip_spaces(text, eq + 1, n);
    if !(br < n && text.get_char(br) == '[') {
        return None;
    }
    let ms = br + 1;
    let md = if ms < n && text.get_char(ms) == '-' {
        ms + 1
    } else {
        ms
    };
    let me = skip_digits(text, md, n);
    if !(me > md && me < n && text.get_char(me) == ',') {
        return None;
    }
    let xs = me + 1;
    let xd = if xs < n && text.get_char(xs) == '-' {
        xs + 1
    } else {
        xs
    };
    let xe = skip_digits(text, xd, n);
    if !(xe > xd) {
        return None;
    }
    let closed = if n - xe < 6 {
        proof {
            assert(!matches_at(text@, v_close(), xe as int));
        }
        false
    } else {
        matches_prefix_at(text, m_v_close(), xe, n, 6)
    };
    if !closed {
        return None;
    }
    Some(
        DeclM {
            start: i,
            name_start: ns,
            name_end: ne,
            kind_start: ks,
            kind_end: ke,
            min_start: ms,
            min_end: me,
            max_start: xs,
            max_end: xe,
            end: xe + 6,
        },
    )
}

/// Finds the first declaration at or after `from`.
fn find_decl_exec(text: &str, from: usize, n: usize) -> (r: Option<DeclM>)
    requires
        n == text@.len(),
        from <= n,
    ensures
        match r {
            Some(dm) => find_decl(text@, from as int) == Some(dm.spans()),
            None => find_decl(text@, from as int) is None,
        },
{
    let mut pos = from;
    loop
        invariant
            from <= pos <= n,
            n == text@.len(),
            find_decl(text@, from as int) == find_decl(text@, pos as int),
        decreases n - pos,
    {
        let i = match find_from(text, m_v_open(), pos) {
            Some(i) => i,
            None => {
                return None;
            },
        };
        proof {
            lemma_find_at(text@, v_open(), pos as int);
        }
        match decl_at_exec(text, i, n) {
            Some(dm) => {
                return Some(dm);
            },
            None => {
                pos = i + 1;
            },
        }
    }
}

/// The first position in `vs`, at or after `from`, holding `name`.
pub open spec fn name_idx(
    vs: Seq<(Seq<char>, Seq<char>, int, int)>,
    name: Seq<char>,
    from: int,
) -> Option<int>
    decreases vs.len() - from,
    when 0 <= from
{
    if from >= vs.len() {
        None
    } else if vs[from].0 == name {
        Some(from)
    } else {
        name_idx(vs, name, from + 1)
    }
}

pub proof fn lemma_name_idx(vs: Seq<(Seq<char>, Seq<char>, int, int)>, name: Seq<char>, from: int)
    requires
        0 <= from,
    ensures
        match name_idx(vs, name, from) {
            Some(t) => from <= t < vs.len() && vs[t].0 == name,
            None => forall|k: int| from <= k < vs.len() ==> vs[k].0 != name,
        },
    decreases vs.len() - from,
{
    if from < vs.len() && vs[from].0 != name {
        lemma_name_idx(vs, name, from + 1);
    }
}

/// Declaring a variable replaces the entry with its name, or appends.
pub open spec fn upsert(
    vs: Seq<(Seq<char>, Seq<char>, int, int)>,
    v: (Seq<char>, Seq<char>, int, int),
) -> Seq<(Seq<char>, Seq<char>, int, int)> {
    match name_idx(vs, v.0, 0) {
        Some(t) => vs.update(t, v),
        None => vs.push(v),
    }
}

/// The variable a bare identifier registers: kind int, bounds 0 to 99.
pub open spec fn default_var(name: Seq<char>) -> (Seq<char>, Seq<char>, int, int) {
    (name, seq!['i', 'n', 't'], 0, 99)
}

/// A bare identifier registers its default variable unless the name is
/// already present.
pub open spec fn add_default(
    vs: Seq<(Seq<char>, Seq<char>, int, int)>,
    name: Seq<char>,
) -> Seq<(Seq<char>, Seq<char>, int, int)> {
    match name_idx(vs, name, 0) {
        Some(_) => vs,
        None => vs.push(default_var(name)),
    }
}

/// The variables after upserting the first `t` declarations, in order.
pub open spec fn fold_decls(s: Seq<char>, ds: Seq<DeclSpans>, t: int) -> Seq<
    (Seq<char>, Seq<char>, int, int),
>
    decreases t,
{
    if t <= 0 {
        seq![]
    } else {
        upsert(fold_decls(s, ds, t - 1), decl_var(s, ds[t - 1]))
    }
}

/// The variables after registering the first `t` identifier names.
pub open spec fn fold_defaults(
    vs: Seq<(Seq<char>, Seq<char>, int, int)>,
    names: Seq<Seq<char>>,
    t: int,
) -> Seq<(Seq<char>, Seq<char>, int, int)>
    decreases t,
{
    if t <= 0 {
        vs
    } else {
        add_default(fold_defaults(vs, names, t - 1), names[t - 1])
    }
}

/// Names are pairwise distinct.
pub open spec fn uniq_vars(vs: Seq<(Seq<char>, Seq<char>, int, int)>) -> bool {
    forall|i: int, j: int| 0 <= i < j < vs.len() ==> (#[trigger] vs[i]).0 != (#[trigger] vs[j]).0
}

pub proof fn lemma_upsert_uniq(
    vs: Seq<(Seq<char>, Seq<char>, int, int)>,
    v: (Seq<char>, Seq<char>, int, int),
)
    requires
        uniq_vars(vs),
    ensures
        uniq_vars(upsert(vs, v)),
{
    lemma_name_idx(vs, v.0, 0);
}

pub proof fn lemma_add_default_uniq(vs: Seq<(Seq<char>, Seq<char>, int, int)>, name: Seq<char>)
    requires
        uniq_vars(vs),
    ensures
        uniq_vars(add_default(vs, name)),
{
    lemma_name_idx(vs, name, 0);
}

pub proof fn lemma_fold_decls_uniq(s: Seq<char>, ds: Seq<DeclSpans>, t: int)
    ensures
        uniq_vars(fold_decls(s, ds, t)),
    decreases t,
{
    if t > 0 {
        lemma_fold_decls_uniq(s, ds, t - 1);
        lemma_upsert_uniq(fold_decls(s, ds, t - 1), decl_var(s, ds[t - 1]));
    }
}

pub proof fn lemma_fold_defaults_uniq(
    vs: Seq<(Seq<char>, Seq<char>, int, int)>,
    names: Seq<Seq<char>>,
    t: int,
)
    requires
        uniq_vars(vs),
    ensures
        uniq_vars(fold_defaults(vs, names, t)),
    decreases t,
{
    if t > 0 {
        lemma_fold_defaults_uniq(vs, names, t - 1);
        lemma_add_default_uniq(fold_defaults(vs, names, t - 1), names[t - 1]);
    }
}

/// The variables of a question body: its declarations in order, later
/// declarations of a name replacing earlier ones, then a default for
/// every identifier whose name no declaration gave.
pub open spec fn question_vars(body: Seq<char>) -> Seq<(Seq<char>, Seq<char>, int, int)> {
    let ds = decl_list(body, 0);
    let base = fold_decls(body, ds, ds.len() as int);
    let names = names_of_bodies(e_bodies(stripped(body, 0), 0));
    fold_defaults(base, names, names.len() as int)
}

/// A parsed question faithfully reflects its body text: variables as
/// `question_vars`, and expressions and layout read from the
/// declaration-stripped body.
pub open spec fn question_matches(q: crate::model::Question, body: Seq<char>) -> bool {
    &&& crate::model::vars_rep(q.vars@) == question_vars(body)
    &&& exprs_rep(q.expressions@) == tokens_of_bodies(e_bodies(stripped(body, 0), 0))
    &&& strs(q.layout@) == e_layout(stripped(body, 0), 0)
}

/// A parsed answer faithfully reflects its body text.
pub open spec fn answer_matches(a: crate::model::Answer, body: Seq<char>) -> bool {
    &&& exprs_rep(a.expressions@) == tokens_of_bodies(e_bodies(body, 0))
    &&& strs(a.layout@) == e_layout(body, 0)
}

/// Reads the signed value of a bound span as a machine integer.
fn parse_span_val(text: &str, a: usize, b: usize, n: usize) -> (r: Option<i64>)
    requires
        n == text@.len(),
        b <= n,
        signed_span(text@, a as int, b as int),
    ensures
        match r {
            Some(v) => v as int == span_val(text@, a as int, b as int) && fits_i64(
                span_val(text@, a as int, b as int),
            ),
            None => !fits_i64(span_val(text@, a as int, b as int)),
        },
{
    let ghost sv = span_val(text@, a as int, b as int);
    if text.get_char(a) == '-' {
        proof {
            crate::nums::lemma_digits_val_bounds(text@.subrange(a + 1, b as int));
            assert(forall|k: int|
                0 <= k < text@.subrange(a + 1, b as int).len() ==> is_digit_char(
                    #[trigger] text@.subrange(a + 1, b as int)[k],
                ));
        }
        match crate::nums::parse_digits(text, a + 1, b) {
            Some(m) => {
                if m <= 9223372036854775807u64 {
                    Some((-(m as i64)) as i64)
                } else if m == 9223372036854775808u64 {
                    Some(i64::MIN)
                } else {
                    None
                }
            },
            None => None,
        }
    } else {
        proof {
            crate::nums::lemma_digits_val_bounds(text@.subrange(a as int, b as int));
            assert(forall|k: int|
                0 <= k < text@.subrange(a as int, b as int).len() ==> is_digit_char(
                    #[trigger] text@.subrange(a as int, b as int)[k],
                ));
        }
        match crate::nums::parse_digits(text, a, b) {
            Some(m) => {
                if m <= 9223372036854775807u64 {
                    Some(m as i64)
                } else {
                    None
                }
            },
            None => None,
        }
    }
}

/// The first position in `vars` holding `name`.
fn var_name_idx(vars: &Vec<crate::model::Var>, name: &String) -> (r: Option<usize>)
    ensures
        match r {
            Some(t) => name_idx(crate::model::vars_rep(vars@), name@, 0) == Some(t as int) && t
                < vars@.len(),
            None => name_idx(crate::model::vars_rep(vars@), name@, 0) is None,
        },
{
    let ghost rep = crate::model::vars_rep(vars@);
    let mut t: usize = 0;
    while t < vars.len()
        invariant
            t <= vars@.len(),
            rep == crate::model::vars_rep(vars@),
            name_idx(rep, name@, 0) == name_idx(rep, name@, t as int),
        decreases vars@.len() - t,
    {
        proof {
            assert(rep[t as int] == crate::model::var_rep(vars@[t as int]));
        }
        if vars[t].name.eq(name) {
            proof {
                assert(rep[t as int].0 == name@);
            }
            return Some(t);
        }
        proof {
            assert(rep[t as int].0 != name@);
        }
        t = t + 1;
    }
    None
}

/// Upserts a declared variable into the list.
fn upsert_var(vars: &mut Vec<crate::model::Var>, v: crate::model::Var)
    ensures
        crate::model::vars_rep(final(vars)@) == upsert(
            crate::model::vars_rep(old(vars)@),
            crate::model::var_rep(v),
        ),
{
    let ghost rep = crate::model::vars_rep(vars@);
    let name = v.name.clone();
    proof {
        assert(name@ == v.name@);
    }
    match var_name_idx(vars, &name) {
        Some(t) => {
            vars.set(t, v);
            proof {
                assert(crate::model::vars_rep(vars@) =~= rep.update(
                    t as int,
                    crate::model::var_rep(v),
                ));
            }
        },
        None => {
            vars.push(v);
            proof {
                assert(crate::model::vars_rep(vars@) =~= rep.push(crate::model::var_rep(v)));
            }
        },
    }
}

/// Registers a default variable for a bare identifier name.
fn add_default_var(vars: &mut Vec<crate::model::Var>, name: String)
    ensures
        crate::model::vars_rep(final(vars)@) == add_default(
            crate::model::vars_rep(old(vars)@),
            name@,
        ),
{
    let ghost rep = crate::model::vars_rep(vars@);
    match var_name_idx(vars, &name) {
        Some(_) => {},
        None => {
            let kind = String::from_str("int");
            proof {
                reveal_strlit("int");
                assert(kind@ =~= seq!['i', 'n', 't']);
            }
            let v = crate::model::Var { name, num_type: kind, min: 0, max: 99 };
            let ghost vrep = crate::model::var_rep(v);
            vars.push(v);
            proof {
                assert(vrep == default_var(vrep.0));
                assert(crate::model::vars_rep(vars@) =~= rep.push(vrep));
            }
        },
    }
}

/// Processes a question body: extracts and removes its declarations,
/// then reads expressions and layout from the stripped text, registering
/// a default variable for every undeclared identifier. Fails when a
/// declaration's bounds do not fit the machine integer type.
pub fn process_question(question: &str, answer: Option<crate::model::Answer>) -> (r: Result<
    crate::model::Question,
    crate::model::ParseError,
>)
    ensures
        match r {
            Ok(q) => question_matches(q, question@) && q.answer == answer
                && crate::model::wf_question(q) == (match answer {
                Some(a) => crate::model::wf_answer(a),
                None => true,
            }) && body_decls_fit(question@),
            Err(_) => !body_decls_fit(question@),
        },
        r is Ok <==> body_decls_fit(question@),
{
    let n = question.unicode_len();
    let mut vars: Vec<crate::model::Var> = Vec::new();
    let mut st = String::new();
    let mut pos: usize = 0;
    let ghost ds = decl_list(question@, 0);
    let ghost mut t: int = 0;
    proof {
        assert(ds.skip(0) =~= ds);
        assert(st@ + stripped(question@, 0) =~= stripped(question@, 0));
        assert(crate::model::vars_rep(vars@) =~= fold_decls(question@, ds, 0));
    }
    loop
        invariant_except_break
            decl_list(question@, pos as int) == ds.skip(t),
            stripped(question@, 0) == st@ + stripped(question@, pos as int),
        invariant
            pos <= n,
            n == question@.len(),
            ds == decl_list(question@, 0),
            0 <= t <= ds.len(),
            crate::model::vars_rep(vars@) == fold_decls(question@, ds, t),
            forall|u: int| 0 <= u < t ==> decl_fits(question@, #[trigger] ds[u]),
        ensures
            st@ == stripped(question@, 0),
            t == ds.len(),
        decreases n - pos,
    {
        proof {
            lemma_find_decl(question@, pos as int);
        }
        match find_decl_exec(question, pos, n) {
            Some(dm) => {
                let ghost d = dm.spans();
                proof {
                    assert(decl_list(question@, pos as int) == seq![d] + decl_list(
                        question@,
                        d.end,
                    ));
                    assert(ds.skip(t)[0] == d);
                    assert(ds[t] == d);
                    assert(ds.skip(t).drop_first() =~= ds.skip(t + 1));
                    assert(decl_list(question@, d.end) =~= ds.skip(t + 1));
                    assert(stripped(question@, pos as int) == question@.subrange(
                        pos as int,
                        d.start,
                    ) + stripped(question@, d.end));
                }
                let seg = sub_string(question, pos, dm.start);
                let ghost old_st = st@;
                st.append(seg.as_str());
                proof {
                    assert(old_st + (question@.subrange(pos as int, d.start) + stripped(
                        question@,
                        d.end,
                    )) =~= st@ + stripped(question@, d.end));
                }
                let name = sub_string(question, dm.name_start, dm.name_end);
                let kind = sub_string(question, dm.kind_start, dm.kind_end);
                let minv = match parse_span_val(question, dm.min_start, dm.min_end, n) {
                    Some(v) => v,
                    None => {
                        proof {
                            assert(!decl_fits(question@, ds[t]));
                        }
                        return Err(crate::model::ParseError::InvalidBounds);
                    },
                };
                let maxv = match parse_span_val(question, dm.max_start, dm.max_end, n) {
                    Some(v) => v,
                    None => {
                        proof {
                            assert(!decl_fits(question@, ds[t]));
                        }
                        return Err(crate::model::ParseError::InvalidBounds);
                    },
                };
                let v = crate::model::Var { name, num_type: kind, min: minv, max: maxv };
                proof {
                    assert(crate::model::var_rep(v) == decl_var(question@, d));
                }
                upsert_var(&mut vars, v);
                proof {
                    assert(fold_decls(question@, ds, t + 1) == upsert(
                        fold_decls(question@, ds, t),
                        decl_var(question@, ds[t]),
                    ));
                }
                pos = dm.end;
                proof {
                    t = t + 1;
                }
            },
            None => {
                let tail = sub_string(question, pos, n);
                let ghost old_st = st@;
                st.append(tail.as_str());
                proof {
                    assert(decl_list(question@, pos as int) =~= Seq::<DeclSpans>::empty());
                    assert(ds.skip(t).len() == 0);
                    assert(t == ds.len());
                    assert(stripped(question@, pos as int) == question@.subrange(
                        pos as int,
                        n as int,
                    ));
                    assert(old_st + stripped(question@, pos as int) =~= st@);
                }
                break ;
            },
        }
    }
    proof {
        assert(st@ == stripped(question@, 0));
        assert(crate::model::vars_rep(vars@) == fold_decls(question@, ds, ds.len() as int));
        assert forall|u: int| 0 <= u < decl_list(question@, 0).len() implies decl_fits(
            question@,
            #[trigger] decl_list(question@, 0)[u],
        ) by {
            assert(decl_list(question@, 0)[u] == ds[u]);
        }
    }
    let ghost base = crate::model::vars_rep(vars@);
    let (exprs, layout, names) = content_of(st.as_str());
    let ghost nseq = strs(names@);
    let mut k: usize = 0;
    proof {
        assert(fold_defaults(base, nseq, 0) == base);
    }
    while k < names.len()
        invariant
            k <= names@.len(),
            nseq == strs(names@),
            crate::model::vars_rep(vars@) == fold_defaults(base, nseq, k as int),
        decreases names@.len() - k,
    {
        let name = names[k].clone();
        proof {
            assert(name@ == nseq[k as int]);
            assert(fold_defaults(base, nseq, k + 1) == add_default(
                fold_defaults(base, nseq, k as int),
                nseq[k as int],
            ));
        }
        add_default_var(&mut vars, name);
        k = k + 1;
    }
    proof {
        assert(crate::model::vars_rep(vars@) == question_vars(question@));
        lemma_fold_decls_uniq(question@, ds, ds.len() as int);
        lemma_fold_defaults_uniq(base, nseq, nseq.len() as int);
        assert(uniq_vars(crate::model::vars_rep(vars@)));
        assert forall|i: int, j: int| 0 <= i < j < vars@.len() implies vars@[i].name@
            != vars@[j].name@ by {
            assert(crate::model::vars_rep(vars@)[i] == crate::model::var_rep(vars@[i]));
            assert(crate::model::vars_rep(vars@)[j] == crate::model::var_rep(vars@[j]));
        }
        lemma_e_layout_len(st@, 0);
        assert(strs(layout@).len() == layout@.len());
        assert(exprs_rep(exprs@).len() == exprs@.len());
        assert(tokens_of_bodies(e_bodies(st@, 0)).len() == e_bodies(st@, 0).len());
    }
    Ok(crate::model::Question { vars, expressions: exprs, layout, answer })
}

/// The layout of the plain split holds one segment more than there are
/// question bodies.
pub proof fn lemma_q_layout_len(s: Seq<char>, from: int)
    requires
        0 <= from,
    ensures
        q_layout(s, from).len() == q_bodies(s, from).len() + 1,
    decreases s.len() - from,
{
    lemma_find_question(s, from);
    if let Some((i, j)) = find_question(s, from) {
        lemma_q_layout_len(s, j + 5);
    }
}

/// The three sequences of the answer-aware split agree in length, the
/// layout one segment longer.
pub proof fn lemma_qa_lens(s: Seq<char>, from: int)
    requires
        0 <= from,
    ensures
        qa_layout(s, from).len() == qa_q_bodies(s, from).len() + 1,
        qa_a_bodies(s, from).len() == qa_q_bodies(s, from).len(),
    decreases s.len() - from,
{
    lemma_find_qa(s, from);
    if let Some((i, j, w, k)) = find_qa(s, from) {
        lemma_qa_lens(s, k + 5);
    }
}

/// Every question body of the plain split has representable bounds.
pub open spec fn plain_bodies_fit(s: Seq<char>) -> bool {
    forall|t: int|
        0 <= t < q_bodies(s, 0).len() ==> body_decls_fit(#[trigger] q_bodies(s, 0)[t])
}

/// A document parsed by the plain entry point faithfully reflects the
/// template: layout and questions as the plain split gives them, no
/// question carrying an answer.
pub open spec fn doc_matches_plain(d: crate::model::Document, s: Seq<char>) -> bool {
    &&& strs(d.layout@) == q_layout(s, 0)
    &&& d.questions@.len() == q_bodies(s, 0).len()
    &&& forall|t: int|
        0 <= t < q_bodies(s, 0).len() ==> question_matches(
            #[trigger] d.questions@[t],
            q_bodies(s, 0)[t],
        ) && d.questions@[t].answer is None
}

/// Every question body of the answer-aware split has representable
/// bounds.
pub open spec fn qa_bodies_fit(s: Seq<char>) -> bool {
    forall|t: int|
        0 <= t < qa_q_bodies(s, 0).len() ==> body_decls_fit(#[trigger] qa_q_bodies(s, 0)[t])
}

/// A document parsed by the answer-aware entry point faithfully
/// reflects the template: each question paired with the answer block
/// that follows it.
pub open spec fn doc_matches_answers(d: crate::model::Document, s: Seq<char>) -> bool {
    &&& strs(d.layout@) == qa_layout(s, 0)
    &&& d.questions@.len() == qa_q_bodies(s, 0).len()
    &&& forall|t: int|
        0 <= t < qa_q_bodies(s, 0).len() ==> question_matches(
            #[trigger] d.questions@[t],
            qa_q_bodies(s, 0)[t],
        ) && match d.questions@[t].answer {
            Some(a) => answer_matches(a, qa_a_bodies(s, 0)[t]),
            None => false,
        }
}

/// Parses a template into a document: question bodies become questions
/// without answers, the text around them becomes the layout. Fails only
/// when a variable declaration's bounds do not fit the machine integer
/// type.
pub fn process(input: &str) -> (r: Result<crate::model::Document, crate::model::ParseError>)
    ensures
        match r {
            Ok(d) => doc_matches_plain(d, input@) && crate::model::wf_document(d),
            Err(_) => !plain_bodies_fit(input@),
        },
        r is Ok <==> plain_bodies_fit(input@),
{
    let (bodies, layout) = split_questions(input);
    let ghost bs = q_bodies(input@, 0);
    let mut questions: Vec<crate::model::Question> = Vec::new();
    let mut t: usize = 0;
    while t < bodies.len()
        invariant
            t <= bodies@.len(),
            strs(bodies@) == bs,
            bs == q_bodies(input@, 0),
            questions@.len() == t,
            forall|u: int|
                0 <= u < t ==> question_matches(#[trigger] questions@[u], bs[u])
                    && questions@[u].answer is None && crate::model::wf_question(questions@[u]),
            forall|u: int| 0 <= u < t ==> body_decls_fit(#[trigger] bs[u]),
        decreases bodies@.len() - t,
    {
        proof {
            assert(bodies@[t as int]@ == bs[t as int]);
        }
        let q = match process_question(bodies[t].as_str(), None) {
            Ok(q) => q,
            Err(e) => {
                proof {
                    assert(strs(bodies@).len() == bodies@.len());
                    assert(0 <= t < q_bodies(input@, 0).len());
                    assert(!body_decls_fit(q_bodies(input@, 0)[t as int]));
                    assert(!plain_bodies_fit(input@));
                }
                return Err(e);
            },
        };
        questions.push(q);
        t = t + 1;
    }
    proof {
        lemma_q_layout_len(input@, 0);
        assert(strs(layout@).len() == layout@.len());
    }
    Ok(crate::model::Document { questions, layout })
}

/// Parses a template whose questions each carry an answer block: a
/// question is recognized only when, after at most whitespace, an
/// answer block follows it; a question without one is left in the
/// layout text. Fails only when a variable declaration's bounds do not
/// fit the machine integer type.
pub fn process_with_answers(input: &str) -> (r: Result<
    crate::model::Document,
    crate::model::ParseError,
>)
    ensures
        match r {
            Ok(d) => doc_matches_answers(d, input@) && crate::model::wf_document(d),
            Err(_) => !qa_bodies_fit(input@),
        },
        r is Ok <==> qa_bodies_fit(input@),
{
    let (bodies, answers, layout) = split_questions_answers(input);
    let ghost bs = qa_q_bodies(input@, 0);
    let ghost abs = qa_a_bodies(input@, 0);
    proof {
        lemma_qa_lens(input@, 0);
        assert(strs(bodies@).len() == bodies@.len());
        assert(strs(answers@).len() == answers@.len());
    }
    let mut questions: Vec<crate::model::Question> = Vec::new();
    let mut t: usize = 0;
    while t < bodies.len()
        invariant
            t <= bodies@.len(),
            strs(bodies@) == bs,
            strs(answers@) == abs,
            bs == qa_q_bodies(input@, 0),
            abs == qa_a_bodies(input@, 0),
            abs.len() == bs.len(),
            bodies@.len() == bs.len(),
            answers@.len() == abs.len(),
            questions@.len() == t,
            forall|u: int|
                0 <= u < t ==> question_matches(#[trigger] questions@[u], bs[u])
                    && crate::model::wf_question(questions@[u]) && match questions@[u].answer {
                    Some(a) => answer_matches(a, abs[u]),
                    None => false,
                },
            forall|u: int| 0 <= u < t ==> body_decls_fit(#[trigger] bs[u]),
        decreases bodies@.len() - t,
    {
        proof {
            assert(bodies@[t as int]@ == bs[t as int]);
            assert(answers@[t as int]@ == abs[t as int]);
        }
        let a = process_answer(answers[t].as_str());
        let ghost arep = a;
        let q = match process_question(bodies[t].as_str(), Some(a)) {
            Ok(q) => q,
            Err(e) => {
                proof {
                    assert(0 <= t < qa_q_bodies(input@, 0).len());
                    assert(!body_decls_fit(qa_q_bodies(input@, 0)[t as int]));
                    assert(!qa_bodies_fit(input@));
                }
                return Err(e);
            },
        };
        proof {
            assert(q.answer == Some(arep));
            assert(answer_matches(arep, abs[t as int]));
        }
        questions.push(q);
        t = t + 1;
    }
    proof {
        assert(strs(layout@).len() == layout@.len());
    }
    Ok(crate::model::Document { questions, layout })
}

} // verus!
