use pomona::prompt::{read_answer, read_number, Answer, Prompt, ScriptedPrompt};
use pomona::term::{paint, Color, Sink};
use pomona::text::join_text;

#[test]
fn paint_wraps_only_when_enabled() {
    assert_eq!(paint(Color::Red, "x", true), "\x1b[0;31mx\x1b[0m");
    assert_eq!(paint(Color::Yellow, "x", true), "\x1b[1;33mx\x1b[0m");
    assert_eq!(paint(Color::Green, "x", false), "x");
}

#[test]
fn string_sink_collects_text() {
    let mut s = String::new();
    s.put("a").unwrap();
    s.put("b").unwrap();
    s.flush().unwrap();
    assert_eq!(s, "ab");
    assert!(!s.colors());
}

#[test]
fn scripted_prompt_falls_back_to_defaults() {
    let mut p = ScriptedPrompt::new(vec![Answer::No], vec![7]);
    assert_eq!(p.confirm("q", true).unwrap(), Answer::No);
    assert_eq!(p.confirm("q", true).unwrap(), Answer::Yes);
    assert_eq!(p.confirm("q", false).unwrap(), Answer::No);
    assert_eq!(p.number("n", 30).unwrap(), 7);
    assert_eq!(p.number("n", 30).unwrap(), 30);
}

#[test]
fn join_puts_separators_between() {
    assert_eq!(join_text(&vec![], ","), "");
    assert_eq!(join_text(&vec!["a".to_string()], ","), "a");
    assert_eq!(join_text(&vec!["a".to_string(), "b".to_string(), "c".to_string()], ", "), "a, b, c");
}

#[test]
fn typed_answers() {
    assert_eq!(read_answer(None, true), Some(Answer::Yes));
    assert_eq!(read_answer(Some("  \n"), false), Some(Answer::No));
    assert_eq!(read_answer(Some("YES\n"), false), Some(Answer::Yes));
    assert_eq!(read_answer(Some(" n "), true), Some(Answer::No));
    assert_eq!(read_answer(Some("Quit"), true), Some(Answer::Quit));
    assert_eq!(read_answer(Some("maybe"), true), None);
}

#[test]
fn typed_numbers() {
    assert_eq!(read_number(None, 30), Some(30));
    assert_eq!(read_number(Some("\n"), 30), Some(30));
    assert_eq!(read_number(Some(" 12 \n"), 30), Some(12));
    assert_eq!(read_number(Some("0"), 30), None);
    assert_eq!(read_number(Some("-3"), 30), None);
    assert_eq!(read_number(Some("x"), 30), None);
}
