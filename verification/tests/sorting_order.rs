use rivescript::ast::Trigger;
use rivescript::parser::Parser;
use rivescript::sorting::{pattern_class_of, pattern_weight, pattern_words, sort_trigger_set};
use rivescript::RiveScript;

fn triggers(patterns: &[&str]) -> Vec<Trigger> {
    patterns.iter().map(|p| Trigger::new(*p)).collect()
}

fn patterns_of(ts: &[Trigger]) -> Vec<String> {
    ts.iter().map(|t| t.trigger.clone()).collect()
}

#[test]
fn weight_extraction() {
    assert_eq!(pattern_weight("{weight=50}hi"), 50);
    assert_eq!(pattern_weight("hello {weight=2}"), 2);
    assert_eq!(pattern_weight("hello bot"), 0);
    assert_eq!(pattern_weight("{weight=}oops"), 0);
    assert_eq!(pattern_weight("{weight=abc}"), 0);
    assert_eq!(pattern_weight("{weight=12"), 0);
    assert_eq!(pattern_weight("{weight=ab}{weight=5}ok"), 5);
    assert_eq!(pattern_weight("{weight=10}x{weight=3}"), 10);
    assert_eq!(pattern_weight("{weight=99999999999999999999999999}"), 0);
}

#[test]
fn structural_classes() {
    assert_eq!(pattern_class_of("hello bot"), 0);
    assert_eq!(pattern_class_of("hello [there] bot"), 1);
    assert_eq!(pattern_class_of("my name is _"), 2);
    assert_eq!(pattern_class_of("i am # years old"), 3);
    assert_eq!(pattern_class_of("hello *"), 4);
    assert_eq!(pattern_class_of("#"), 5);
    assert_eq!(pattern_class_of("_"), 6);
    assert_eq!(pattern_class_of("*"), 7);
}

#[test]
fn word_counting() {
    assert_eq!(pattern_words("hello bot"), 2);
    assert_eq!(pattern_words("  spaced   out  "), 2);
    assert_eq!(pattern_words("one"), 1);
    assert_eq!(pattern_words(""), 0);
}

#[test]
fn sort_ordering() {
    let sorted = sort_trigger_set(triggers(&["hello bot", "hello *", "*", "{weight=50}hi"]));
    assert_eq!(
        patterns_of(&sorted),
        vec![
            "{weight=50}hi".to_owned(),
            "hello bot".to_owned(),
            "hello *".to_owned(),
            "*".to_owned(),
        ]
    );
}

#[test]
fn sort_is_idempotent() {
    let once = sort_trigger_set(triggers(&["hello bot", "hello *", "*", "{weight=50}hi"]));
    let first = patterns_of(&once);
    let twice = sort_trigger_set(once);
    assert_eq!(patterns_of(&twice), first);
}

#[test]
fn sort_by_word_count_within_class() {
    let sorted = sort_trigger_set(triggers(&["a b", "a b c d", "a b c"]));
    assert_eq!(
        patterns_of(&sorted),
        vec!["a b c d".to_owned(), "a b c".to_owned(), "a b".to_owned()]
    );
}

#[test]
fn sort_is_stable_for_equal_keys() {
    let sorted = sort_trigger_set(triggers(&["one two", "uno dos", "ein zwei"]));
    assert_eq!(
        patterns_of(&sorted),
        vec!["one two".to_owned(), "uno dos".to_owned(), "ein zwei".to_owned()]
    );
}

#[test]
fn weight_classes_rank_by_bucket() {
    let sorted = sort_trigger_set(triggers(&["low", "{weight=5}mid", "{weight=10}top"]));
    assert_eq!(
        patterns_of(&sorted),
        vec!["{weight=10}top".to_owned(), "{weight=5}mid".to_owned(), "low".to_owned()]
    );
}

#[test]
fn sort_triggers_with_no_topics_fails() {
    let bot = RiveScript::new();
    let err = bot.sort_triggers().unwrap_err();
    assert_eq!(
        err.message(),
        "sort_triggers: no topics were found. Did you load any RiveScript code?"
    );
}

#[test]
fn stream_and_sort_produce_topic_order() {
    let mut bot = RiveScript::new();
    bot.stream("+ hello bot\n- Hello!\n+ *\n- Default.".to_string())
        .unwrap();
    let sorted = bot.sort_triggers().unwrap();
    let random = sorted.get("random").unwrap();
    assert_eq!(random.len(), 2);
    assert_eq!(random[0].trigger, "hello bot");
    assert_eq!(random[1].trigger, "*");
}

#[test]
fn stream_reports_fatal_version_errors() {
    let mut bot = RiveScript::new();
    let err = bot.stream("! version = 3.0".to_string()).unwrap_err();
    assert_eq!(
        err.message(),
        "This RiveScript document declares a `! version` number higher than we support"
    );
    let parser = Parser::new();
    assert!(parser.parse("ok", "! version = 2.0".to_string()).is_ok());
}
