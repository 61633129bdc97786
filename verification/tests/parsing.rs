use rivescript::ast::AST;
use rivescript::parser::Parser;

fn parse(source: &str) -> AST {
    Parser::new().parse("test", source.to_string()).unwrap()
}

#[test]
fn definitions_round_trip() {
    let ast = parse(
        "! global depth = 50\n! var master = Noah\n! sub who's = who is\n! person you = I",
    );
    assert_eq!(ast.globals.get("depth").unwrap(), "50");
    assert_eq!(ast.vars.get("master").unwrap(), "Noah");
    assert_eq!(ast.subs.get("who's").unwrap(), "who is");
    assert_eq!(ast.person.get("you").unwrap(), "I");
}

#[test]
fn continuation_concatenates_without_separator() {
    let ast = parse("! var name = RiveScript\n^ Test Robot");
    assert_eq!(ast.vars.get("name").unwrap(), "RiveScriptTest Robot");
}

#[test]
fn continuation_skips_blank_lines() {
    let ast = parse("! var name = Rive\n\n^ Bot");
    assert_eq!(ast.vars.get("name").unwrap(), "RiveBot");
}

#[test]
fn array_rows_and_words_flatten_in_order() {
    let ast = parse("! array colors = red blue\n^ light\\sgreen|navy blue");
    let colors = ast.arrays.get("colors").unwrap();
    let expect: Vec<String> = vec!["red", "blue", "light green", "navy blue"]
        .into_iter()
        .map(|s| s.to_owned())
        .collect();
    assert_eq!(*colors, expect);
}

#[test]
fn version_two_is_accepted() {
    let ast = parse("! version = 2.0");
    assert_eq!(ast.version, 2_000_000);
}

#[test]
fn version_fractional_is_kept() {
    let ast = parse("! version = 1.5");
    assert_eq!(ast.version, 1_500_000);
}

#[test]
fn version_too_new_is_fatal() {
    let err = Parser::new()
        .parse("test", "! version = 99.0".to_string())
        .unwrap_err();
    assert_eq!(
        err.message(),
        "This RiveScript document declares a `! version` number higher than we support"
    );
}

#[test]
fn version_unparsable_is_fatal() {
    let err = Parser::new()
        .parse("test", "! version = notanumber".to_string())
        .unwrap_err();
    assert_eq!(
        err.message(),
        "Didn't parse version string; was it a properly formatted number?"
    );
}

#[test]
fn version_zero_is_fatal() {
    let err = Parser::new()
        .parse("test", "! version = 0.0".to_string())
        .unwrap_err();
    assert_eq!(
        err.message(),
        "Didn't parse version string; was it a properly formatted number?"
    );
}

#[test]
fn trigger_boundaries_are_finalized() {
    let ast = parse(
        "+ ask me a question\n- What is your name?\n+ *\n% what is your name\n- I will call you.",
    );
    let topic = ast.topics.get("random").unwrap();
    assert_eq!(topic.triggers.len(), 2);
    assert_eq!(topic.triggers[0].trigger, "ask me a question");
    assert_eq!(topic.triggers[0].reply, vec!["What is your name?".to_owned()]);
    assert_eq!(topic.triggers[1].trigger, "*");
    assert_eq!(topic.triggers[1].previous, "what is your name");
    assert_eq!(topic.triggers[1].reply, vec!["I will call you.".to_owned()]);
}

#[test]
fn definition_missing_value_is_skipped() {
    let ast = parse("! var name =\n! var other = ok");
    assert!(ast.vars.get("name").is_none());
    assert_eq!(ast.vars.get("other").unwrap(), "ok");
}

#[test]
fn unknown_definition_kind_is_skipped() {
    let ast = parse("! mystery thing = value");
    assert!(ast.globals.get("thing").is_none());
    assert!(ast.vars.get("thing").is_none());
}

#[test]
fn local_option_does_not_touch_the_tree() {
    let ast = parse("! local concat = newline");
    assert!(ast.globals.get("concat").is_none());
    assert!(ast.vars.get("concat").is_none());
}

#[test]
fn comments_are_ignored() {
    let ast = parse("// a comment\n/* block\nstill comment\n*/\n! var a = b");
    assert_eq!(ast.vars.get("a").unwrap(), "b");
}

#[test]
fn inline_comment_is_stripped() {
    let ast = parse("! var a = hello // trailing note");
    assert_eq!(ast.vars.get("a").unwrap(), "hello");
}

#[test]
fn short_lines_are_skipped() {
    let ast = parse("+\n! var a = b");
    assert_eq!(ast.vars.get("a").unwrap(), "b");
    assert_eq!(ast.topics.get("random").unwrap().triggers.len(), 0);
}

#[test]
fn object_macro_is_captured() {
    let ast = parse("> object hello PERL\n    my code line\n< object");
    let obj = ast.objects.get("hello").unwrap();
    assert_eq!(obj.name, "hello");
    assert_eq!(obj.language, "perl");
    assert_eq!(obj.code, vec!["my code line".to_owned()]);
}

#[test]
fn object_without_language_is_never_stored() {
    let ast = parse("> object hello\nsome code\n< object\n! var a = b");
    assert!(ast.objects.get("hello").is_none());
    assert_eq!(ast.vars.get("a").unwrap(), "b");
}

#[test]
fn topic_labels_collect_triggers() {
    let ast = parse("> topic pets\n+ i like dogs\n- Me too.\n< topic\n+ hello\n- Hi.");
    let pets = ast.topics.get("pets").unwrap();
    assert_eq!(pets.triggers.len(), 1);
    assert_eq!(pets.triggers[0].trigger, "i like dogs");
    let random = ast.topics.get("random").unwrap();
    assert_eq!(random.triggers.len(), 1);
    assert_eq!(random.triggers[0].trigger, "hello");
}

#[test]
fn topic_includes_and_inherits_are_recorded() {
    let ast = parse("> topic b includes a c inherits d");
    let topic = ast.topics.get("b").unwrap();
    assert!(topic.includes.contains("a"));
    assert!(topic.includes.contains("c"));
    assert!(topic.inherits.contains("d"));
    assert!(!topic.inherits.contains("a"));
}

#[test]
fn begin_is_a_topic_synonym() {
    let ast = parse("> begin\n+ request\n- {ok}\n< begin");
    let begin = ast.topics.get("__begin__").unwrap();
    assert_eq!(begin.triggers.len(), 1);
    assert_eq!(begin.triggers[0].trigger, "request");
}

#[test]
fn redirect_and_condition_attach_to_trigger() {
    let ast = parse("+ older\n* <get age> > 10 => old enough\n@ hello");
    let t = &ast.topics.get("random").unwrap().triggers[0];
    assert_eq!(t.condition, vec!["<get age> > 10 => old enough".to_owned()]);
    assert_eq!(t.redirect, "hello");
}

#[test]
fn merge_prefers_latest_scalar_and_appends_triggers() {
    let parser = Parser::new();
    let mut a = parser
        .parse("a", "! global debug = true\n+ one\n- first".to_string())
        .unwrap();
    let b = parser
        .parse("b", "! global debug = false\n+ two\n- second".to_string())
        .unwrap();
    a.extend(b);
    assert_eq!(a.globals.get("debug").unwrap(), "false");
    let random = a.topics.get("random").unwrap();
    assert_eq!(random.triggers.len(), 2);
    assert_eq!(random.triggers[0].trigger, "one");
    assert_eq!(random.triggers[1].trigger, "two");
}

#[test]
fn merge_keeps_latest_version() {
    let parser = Parser::new();
    let mut a = parser.parse("a", "! version = 1.5".to_string()).unwrap();
    let b = parser.parse("b", "+ hi\n- Hello.".to_string()).unwrap();
    a.extend(b);
    assert_eq!(a.version, 1_500_000);
    let c = parser.parse("c", "! version = 2.0".to_string()).unwrap();
    a.extend(c);
    assert_eq!(a.version, 2_000_000);
}

#[test]
fn redefinition_overwrites_scalars_and_arrays() {
    let ast = parse("! var a = one\n! var a = two\n! array n = 1 2\n! array n = 3");
    assert_eq!(ast.vars.get("a").unwrap(), "two");
    assert_eq!(*ast.arrays.get("n").unwrap(), vec!["3".to_owned()]);
}

#[test]
fn empty_document_has_default_topic() {
    let ast = parse("");
    assert_eq!(ast.version, 0);
    let random = ast.topics.get("random").unwrap();
    assert_eq!(random.triggers.len(), 0);
}

#[test]
fn end_of_input_finalizes_pending_trigger() {
    let ast = parse("+ goodbye");
    let random = ast.topics.get("random").unwrap();
    assert_eq!(random.triggers.len(), 1);
    assert_eq!(random.triggers[0].trigger, "goodbye");
    assert_eq!(random.triggers[0].reply.len(), 0);
}

#[test]
fn topic_never_includes_or_inherits_itself() {
    let ast = parse("> topic a includes a b inherits a c");
    let t = ast.topics.get("a").unwrap();
    assert!(!t.includes.contains("a"));
    assert!(t.includes.contains("b"));
    assert!(!t.inherits.contains("a"));
    assert!(t.inherits.contains("c"));
}

#[test]
fn version_with_leading_plus_is_accepted() {
    let ast = parse("! version = +2.0");
    assert_eq!(ast.version, 2_000_000);
}

#[test]
fn version_with_two_signs_is_fatal() {
    let err = Parser::new()
        .parse("test", "! version = ++2.0".to_string())
        .unwrap_err();
    assert_eq!(
        err.message(),
        "Didn't parse version string; was it a properly formatted number?"
    );
}
