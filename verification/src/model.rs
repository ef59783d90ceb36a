//! The data model: a parsed `Document` holds ordered questions and the
//! literal layout text around them; questions hold variables, expressions
//! and their own layout; a generated `Test` holds rendered content and
//! answers.
use vstd::prelude::*;

verus! {

use crate::chars::concat_all;

/// A variable used by a question: its name, its kind (`"int"` renders as
/// an integer, anything else as a real), and its inclusive integer bounds.
pub struct Var {
    /// The variable name.
    pub name: String,
    /// The kind of the variable: either int or real.
    pub num_type: String,
    /// The minimum value for this variable.
    pub min: i64,
    /// The maximum value for this variable.
    pub max: i64,
}

/// One component of an expression: a variable reference or literal text.
pub enum ExpComp {
    /// A variable name to be replaced by its drawn value.
    Var(String),
    /// Literal expression text passed through unchanged.
    Other(String),
}

/// An arithmetic expression, kept as its ordered components.
pub struct Expression {
    /// The components, alternating literal text and variable references.
    pub expression: Vec<ExpComp>,
}

/// The answer to a question; it is rendered with the same variable values
/// as its parent question.
pub struct Answer {
    /// Expressions to evaluate with the parent question's values.
    pub expressions: Vec<Expression>,
    /// Literal answer text around the expressions.
    pub layout: Vec<String>,
}

/// A question: its variables, its expressions, the literal text around
/// them, and optionally its answer.
pub struct Question {
    /// The variables of the question, names unique, declarations first.
    pub vars: Vec<Var>,
    /// The expressions to evaluate when rendering the question.
    pub expressions: Vec<Expression>,
    /// Literal question text around the expressions.
    pub layout: Vec<String>,
    /// The answer to the question, when one was provided.
    pub answer: Option<Answer>,
}

/// A parsed template: ordered questions and the literal layout text that
/// stays in place around them.
pub struct Document {
    /// The questions, in the order they appear in the template.
    pub questions: Vec<Question>,
    /// Literal text around the questions; one more entry than questions.
    pub layout: Vec<String>,
}

/// One generated variant: the rendered content and the rendered answer key.
pub struct Test {
    /// The rendered test content.
    pub content: String,
    /// The rendered answer key.
    pub answers: String,
}

/// An error raised while parsing a template.
#[derive(Debug)]
pub enum ParseError {
    /// A variable declaration whose bounds do not fit a machine integer.
    InvalidBounds,
}

/// An error raised while rendering one test.
#[derive(Debug)]
pub enum EvalError {
    /// An expression referenced a name with no value in its scope.
    UnboundVariable,
    /// The arithmetic evaluator failed or returned no single value.
    Evaluation,
}

/// The text of a component: a variable's name or the literal fragment.
pub open spec fn comp_text(c: ExpComp) -> Seq<char> {
    match c {
        ExpComp::Var(s) => s@,
        ExpComp::Other(s) => s@,
    }
}

/// A component as the pair (is a variable reference, its text).
pub open spec fn comp_rep(c: ExpComp) -> (bool, Seq<char>) {
    match c {
        ExpComp::Var(s) => (true, s@),
        ExpComp::Other(s) => (false, s@),
    }
}

/// The components of a sequence, each as its pair form.
pub open spec fn comps_rep(cs: Seq<ExpComp>) -> Seq<(bool, Seq<char>)> {
    cs.map_values(|c: ExpComp| comp_rep(c))
}

/// The source text of an expression: its components concatenated.
pub open spec fn expr_source(e: Expression) -> Seq<char> {
    concat_all(e.expression@.map_values(|c: ExpComp| comp_text(c)))
}

/// A variable as the tuple (name, kind, min, max).
pub open spec fn var_rep(v: Var) -> (Seq<char>, Seq<char>, int, int) {
    (v.name@, v.num_type@, v.min as int, v.max as int)
}

/// A variable sequence, each as its tuple form.
pub open spec fn vars_rep(vs: Seq<Var>) -> Seq<(Seq<char>, Seq<char>, int, int)> {
    vs.map_values(|v: Var| var_rep(v))
}

/// Variable names are pairwise distinct.
pub open spec fn unique_names(vs: Seq<Var>) -> bool {
    forall|i: int, j: int| 0 <= i < j < vs.len() ==> vs[i].name@ != vs[j].name@
}

/// An answer is well formed when its layout has one more entry than its
/// expression list.
pub open spec fn wf_answer(a: Answer) -> bool {
    a.layout@.len() == a.expressions@.len() + 1
}

/// A question is well formed when its layout has one more entry than its
/// expression list, its variable names are unique, and its answer, if
/// any, is well formed.
pub open spec fn wf_question(q: Question) -> bool {
    &&& q.layout@.len() == q.expressions@.len() + 1
    &&& unique_names(q.vars@)
    &&& match q.answer {
        Some(a) => wf_answer(a),
        None => true,
    }
}

/// A document is well formed when its layout has one more entry than its
/// question list and every question is well formed.
pub open spec fn wf_document(d: Document) -> bool {
    &&& d.layout@.len() == d.questions@.len() + 1
    &&& forall|i: int| 0 <= i < d.questions@.len() ==> wf_question(#[trigger] d.questions@[i])
}

} // verus!
