use morphius::{gen_form, generate, process, process_with_answers, Evaluator};
use regex::Regex;

struct MexEval;

impl Evaluator for MexEval {
    fn eval_expr(&mut self, expr: &str) -> Option<(String, String)> {
        match mexprp::eval::<f64>(expr) {
            Ok(mexprp::Answer::Single(num)) => Some((format!("{:.3}", num), num.to_string())),
            _ => None,
        }
    }
}

const FORM1: &str = "Beginning|<q>Question 1</q>|Middle|<q>Question 2</q>|End";
const FORM2: &str = "|<q>1</q>|Middle 1|<q>2</q>|Middle 2|<q>3</q>|";
const FORM3: &str = "|<q>1</q>||<q>2</q>||<q>3</q>|";

#[test]
fn test_gen_form_original_order() {
    let mut ev = MexEval;
    let doc = process(FORM1).unwrap();
    assert_eq!(gen_form(&doc, None, &mut ev).unwrap().content, "BeginningQuestion 1MiddleQuestion 2End");
}

#[test]
fn test_gen_form_different_order() {
    let mut ev = MexEval;
    let doc = process(FORM2).unwrap();
    assert_eq!(gen_form(&doc, Some(&vec![1, 2, 0]), &mut ev).unwrap().content, "2Middle 13Middle 21");
    assert_eq!(gen_form(&doc, Some(&vec![2, 1, 0]), &mut ev).unwrap().content, "3Middle 12Middle 21");
    assert_eq!(gen_form(&doc, Some(&vec![0, 1, 2]), &mut ev).unwrap().content, "1Middle 12Middle 23");
}

#[test]
fn test_generate_no_reorder() {
    let mut ev = MexEval;
    let doc = process(FORM3).unwrap();
    assert_eq!(generate(&doc, 2, None, &mut ev)[0].as_ref().unwrap().content, "123");
    assert_eq!(generate(&doc, 2, None, &mut ev)[1].as_ref().unwrap().content, "123");
}

#[test]
fn test_generate_reorder() {
    let mut ev = MexEval;
    let doc = process(FORM3).unwrap();
    let results = generate(&doc, 3, Some(3), &mut ev);
    for result in results {
        let test = result.unwrap();
        assert!(
            test.content.contains("1") && test.content.contains("2") && test.content.contains("3")
        );
    }
}

#[test]
fn test_generate_skip_questions() {
    let mut ev = MexEval;
    let doc = process(FORM3).unwrap();
    let results = generate(&doc, 3, Some(1), &mut ev);
    for result in results {
        let test = result.unwrap();
        assert!(
            !test.content.contains("1") || !test.content.contains("2")
                || !test.content.contains("3")
        );
    }
}

#[test]
fn test_generate_var() {
    let mut ev = MexEval;
    let doc = process("|<q>|<e>a</e>|</q>|").unwrap();
    let result = generate(&doc, 3, Some(1), &mut ev);
    let num_re = Regex::new(r"^[[:digit:]]+$").unwrap();
    assert!(num_re.is_match(&result[0].as_ref().unwrap().content));
}

#[test]
fn test_generate_var_math() {
    let mut ev = MexEval;
    let doc = process("|<q>|<e>(a+b)-c</e>|</q>|").unwrap();
    let result = generate(&doc, 3, Some(1), &mut ev);
    let num_re = Regex::new(r"^-?[[:digit:]]+$").unwrap();
    println!("{}", result[0].as_ref().unwrap().content);
    assert!(num_re.is_match(&result[0].as_ref().unwrap().content));
}

#[test]
fn test_answer_generated_correctly() {
    let mut ev = MexEval;
    let doc = process_with_answers("|<q>|<e>a</e>|</q>||<a>|<e>a</e>|</a>|").unwrap();
    for result in generate(&doc, 3, Some(1), &mut ev) {
        let test = result.unwrap();
        assert_eq!(test.content, test.answers);
    }
}

#[test]
fn test_var_bounds_are_processed() {
    let mut ev = MexEval;
    let doc = process("|<q>|<v>x: real = [5,55]</v>||<e>x/x</e>|</q>|").unwrap();
    for result in generate(&doc, 3, Some(1), &mut ev) {
        assert!(result.unwrap().content == "1");
    }
}

#[test]
fn test_numerical_rounding_to_three_decimal_places() {
    let mut ev = MexEval;
    let doc = process("|<q>|<e>1/3</e>|</q>|").unwrap();
    for result in generate(&doc, 3, Some(1), &mut ev) {
        assert_eq!("0.333", result.unwrap().content);
    }
}

#[test]
fn test_exact_arithmetic() {
    let mut ev = MexEval;
    let doc = process("|<q>|<e>2+3</e>| and |<e>2^3</e>| and |<e>(1+2)*-2</e>|</q>|").unwrap();
    let test = gen_form(&doc, None, &mut ev).unwrap();
    assert_eq!(test.content, "5 and 8 and -6");
}

#[test]
fn test_drawn_value_respects_bounds() {
    let mut ev = MexEval;
    let doc = process("|<q>|<v>a: int = [5,9]</v>||<e>a</e>|</q>|").unwrap();
    for result in generate(&doc, 20, None, &mut ev) {
        let value: i64 = result.unwrap().content.parse().unwrap();
        assert!((5..=9).contains(&value));
    }
}

#[test]
fn test_real_value_shape() {
    let mut ev = MexEval;
    let doc = process("|<q>|<v>x: real = [5,6]</v>||<e>x</e>|</q>|").unwrap();
    let shape = Regex::new(r"^5(\.[0-9]{1,3})?$").unwrap();
    for result in generate(&doc, 20, None, &mut ev) {
        let content = result.unwrap().content;
        assert!(shape.is_match(&content), "unexpected rendering: {}", content);
    }
}

#[test]
fn test_missing_answer_text() {
    let mut ev = MexEval;
    let doc = process(FORM1).unwrap();
    let test = gen_form(&doc, None, &mut ev).unwrap();
    assert_eq!(
        test.answers,
        "BeginningNo Answers ProvidedMiddleNo Answers ProvidedEnd"
    );
}

#[test]
fn test_division_by_zero_is_reported() {
    let mut ev = MexEval;
    let doc = process("|<q>|<e>1/0</e>|</q>|").unwrap();
    let results = generate(&doc, 2, None, &mut ev);
    assert_eq!(results.len(), 2);
    for result in results {
        assert!(matches!(result, Err(morphius::EvalError::Evaluation)));
    }
}

#[test]
fn test_unbound_answer_variable_is_reported() {
    let mut ev = MexEval;
    let doc = process_with_answers("|<q>fixed text</q>||<a>|<e>zz</e>|</a>|").unwrap();
    let results = generate(&doc, 1, None, &mut ev);
    assert!(matches!(results[0], Err(morphius::EvalError::UnboundVariable)));
}

#[test]
fn test_zero_results() {
    let mut ev = MexEval;
    let doc = process(FORM3).unwrap();
    assert_eq!(generate(&doc, 0, None, &mut ev).len(), 0);
    assert_eq!(generate(&doc, 0, Some(2), &mut ev).len(), 0);
}

#[test]
fn test_selection_clamped_to_question_count() {
    let mut ev = MexEval;
    let doc = process("plain text only").unwrap();
    let results = generate(&doc, 1, Some(5), &mut ev);
    assert_eq!(results[0].as_ref().unwrap().content, "plain text only");
}

#[test]
fn test_one_bad_question_spoils_no_other_test() {
    let mut ev = MexEval;
    let good = process("|<q>|<e>4*2</e>|</q>|").unwrap();
    let results = generate(&good, 3, None, &mut ev);
    assert_eq!(results.len(), 3);
    for result in results {
        assert_eq!(result.unwrap().content, "8");
    }
}
