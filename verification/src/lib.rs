//! Randomizable exam-template engine: parses a template text into a
//! `Document` of questions, variable declarations and arithmetic
//! expressions, and generates concrete test variants with freshly drawn
//! variable values and an optional answer key.
pub mod chars;
pub mod generate;
pub mod laws;
pub mod model;
pub mod nums;
pub mod parse;

pub use generate::{gen_form, gen_question_text, generate, Evaluator};
pub use model::{Answer, Document, EvalError, ExpComp, Expression, ParseError, Question, Test, Var};
pub use parse::{process, process_answer, process_question, process_with_answers};
