use morphius::{gen_question_text, process, process_with_answers, Evaluator};

struct MexEval;

impl Evaluator for MexEval {
    fn eval_expr(&mut self, expr: &str) -> Option<(String, String)> {
        match mexprp::eval::<f64>(expr) {
            Ok(mexprp::Answer::Single(num)) => Some((format!("{:.3}", num), num.to_string())),
            _ => None,
        }
    }
}

const FORM1: &str = "Beginning|<q>Question 1</q>|Middle|<q>Question 2</q>|End";
const FORM2: &str = "|<q>1</q>|Middle 1|<q>2</q>|Middle 2|<q>3</q>|";
const FORM4: &str = "|<q>1</q>||<a>3</a>|";
const FORM5: &str = "|<q>1</q>|\n\n          \t\t|<a>3</a>|";

#[test]
fn test_process_1() {
    let mut ev = MexEval;
    let doc = process(FORM1).unwrap();
    assert_eq!(doc.layout[0], "Beginning");
    assert_eq!(doc.layout[1], "Middle");
    assert_eq!(doc.layout[2], "End");
    assert_eq!(gen_question_text(&doc.questions[0], &mut ev).unwrap().0, "Question 1");
    assert_eq!(gen_question_text(&doc.questions[1], &mut ev).unwrap().0, "Question 2");
}

#[test]
fn test_process_2() {
    let mut ev = MexEval;
    let doc = process(FORM2).unwrap();
    assert_eq!(doc.layout, vec!["", "Middle 1", "Middle 2", ""]);
    assert_eq!(gen_question_text(&doc.questions[0], &mut ev).unwrap().0, "1");
    assert_eq!(gen_question_text(&doc.questions[1], &mut ev).unwrap().0, "2");
    assert_eq!(gen_question_text(&doc.questions[2], &mut ev).unwrap().0, "3");
}

#[test]
fn test_process_with_anwer() {
    let doc1 = process_with_answers(FORM4).unwrap();
    match doc1.questions[0].answer {
        Some(_) => assert!(true),
        None => assert!(false),
    }

    let doc2 = process(FORM4).unwrap();
    match doc2.questions[0].answer {
        Some(_) => assert!(false),
        None => assert!(true),
    }
}

#[test]
fn test_process_with_anwer_newlines_are_ok() {
    let doc = process_with_answers(FORM5).unwrap();
    match doc.questions[0].answer {
        Some(_) => assert!(true),
        None => assert!(false),
    }
}

#[test]
fn test_layout_one_longer_than_questions() {
    for text in [
        "",
        "no questions at all",
        FORM1,
        FORM2,
        FORM4,
        "|<q>only</q>|",
        "|<q>unclosed",
    ] {
        let doc = process(text).unwrap();
        assert_eq!(doc.layout.len(), doc.questions.len() + 1);
    }
    let doc = process_with_answers(FORM4).unwrap();
    assert_eq!(doc.layout.len(), doc.questions.len() + 1);
}

#[test]
fn test_empty_template() {
    let doc = process("").unwrap();
    assert_eq!(doc.questions.len(), 0);
    assert_eq!(doc.layout, vec![""]);
}

#[test]
fn test_question_without_answer_is_dropped() {
    let doc = process_with_answers("Start|<q>lonely</q>|End").unwrap();
    assert_eq!(doc.questions.len(), 0);
    assert_eq!(doc.layout, vec!["Start|<q>lonely</q>|End"]);
}

#[test]
fn test_declaration_overrides_default() {
    let doc = process("|<q>|<v>a: int = [7,7]</v>||<e>a</e>|</q>|").unwrap();
    let q = &doc.questions[0];
    assert_eq!(q.vars.len(), 1);
    assert_eq!(q.vars[0].name, "a");
    assert_eq!(q.vars[0].num_type, "int");
    assert_eq!(q.vars[0].min, 7);
    assert_eq!(q.vars[0].max, 7);
}

#[test]
fn test_last_declaration_wins() {
    let doc =
        process("|<q>|<v>a: int = [1,2]</v>||<v>a: real = [3,4]</v>||<e>a</e>|</q>|").unwrap();
    let q = &doc.questions[0];
    assert_eq!(q.vars.len(), 1);
    assert_eq!(q.vars[0].num_type, "real");
    assert_eq!(q.vars[0].min, 3);
    assert_eq!(q.vars[0].max, 4);
}

#[test]
fn test_undeclared_variable_gets_default() {
    let doc = process("|<q>|<e>speed_2*t</e>|</q>|").unwrap();
    let q = &doc.questions[0];
    assert_eq!(q.vars.len(), 2);
    assert_eq!(q.vars[0].name, "speed_2");
    assert_eq!(q.vars[0].num_type, "int");
    assert_eq!(q.vars[0].min, 0);
    assert_eq!(q.vars[0].max, 99);
    assert_eq!(q.vars[1].name, "t");
}

#[test]
fn test_bad_bounds_are_rejected() {
    let res = process("|<q>|<v>x: int = [99999999999999999999,5]</v>|</q>|");
    assert!(matches!(res, Err(morphius::ParseError::InvalidBounds)));
    let ok = process("|<q>|<v>x: int = [-9223372036854775808,9223372036854775807]</v>|</q>|");
    assert!(ok.is_ok());
}

#[test]
fn test_structural_replay_of_question() {
    let doc = process("|<q>ab|<e>x+y_2</e>|cd</q>|").unwrap();
    let q = &doc.questions[0];
    assert_eq!(q.layout, vec!["ab", "cd"]);
    let mut source = String::new();
    for comp in &q.expressions[0].expression {
        match comp {
            morphius::ExpComp::Var(s) => source.push_str(s),
            morphius::ExpComp::Other(s) => source.push_str(s),
        }
    }
    assert_eq!(source, "x+y_2");
    let mut replay = String::new();
    replay.push_str(&q.layout[0]);
    replay.push_str("|<e>");
    replay.push_str(&source);
    replay.push_str("</e>|");
    replay.push_str(&q.layout[1]);
    assert_eq!(replay, "ab|<e>x+y_2</e>|cd");
}

#[test]
fn test_unicode_whitespace_gap_before_answer() {
    let doc = process_with_answers("|<q>1</q>|\u{a0}\u{2003}|<a>2</a>|").unwrap();
    assert_eq!(doc.questions.len(), 1);
    assert!(doc.questions[0].answer.is_some());
}

#[test]
fn test_negative_bounds() {
    let doc = process("|<q>|<v>a: int = [-5,-2]</v>||<e>a</e>|</q>|").unwrap();
    assert_eq!(doc.questions[0].vars[0].min, -5);
    assert_eq!(doc.questions[0].vars[0].max, -2);
}

#[test]
fn test_process_answer_layout() {
    let a = morphius::process_answer("x|<e>a+b</e>|y");
    assert_eq!(a.layout, vec!["x", "y"]);
    assert_eq!(a.expressions.len(), 1);
}

#[test]
fn test_malformed_declaration_stays_in_text() {
    let doc = process("|<q>|<v>1x: int = [1,2]</v>|</q>|").unwrap();
    let q = &doc.questions[0];
    assert_eq!(q.vars.len(), 0);
    assert_eq!(q.layout, vec!["|<v>1x: int = [1,2]</v>|"]);
}

#[test]
fn test_expression_must_stay_on_one_line() {
    let doc = process("|<q>|<e>a\n+b</e>|</q>|").unwrap();
    let q = &doc.questions[0];
    assert_eq!(q.expressions.len(), 0);
    assert_eq!(q.layout, vec!["|<e>a\n+b</e>|"]);
}
