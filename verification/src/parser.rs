//! The document parser: a line-by-line state machine that turns raw
//! RiveScript text into a rule tree.
//!
//! The whole machine is first written down as spec functions
//! (`parse_doc` and the step functions it is built from); the
//! executable parser is then proved to compute exactly that fold.

use vstd::prelude::*;

use crate::ast::{
    empty_ast, empty_topic, empty_trigger, no_self_relations, AstV, Object, ObjectV, Topic, TopicV,
    Trigger, TriggerV, AST,
};
use crate::errors::ParseError;
use crate::strmap::StrMap;
use crate::text::{
    begins_with, chars_eq, chars_to_string, contains_in, contains_sub, digit_val, digits_to_u64,
    digits_val, find_in, find_sub, is_digit, is_digit_char, lower_in, lower_spec, push_all,
    replace_in, replace_spec, split_in, split_spec, split_ws_in, split_ws_spec, str_to_chars,
    sub_chars, trim_chars, trim_spec,
};

verus! {

/// The ways a document can fail to parse.
pub enum ParseFail {
    /// The `! version` value was missing, malformed or zero.
    BadVersion,
    /// The document declares a version above the supported one.
    VersionTooNew,
}

/// Supported RiveScript specification version, in millionths.
pub open spec fn supported_version() -> int {
    2_000_000
}

pub open spec fn bad_version_message() -> Seq<char> {
    "Didn't parse version string; was it a properly formatted number?"@
}

pub open spec fn version_too_new_message() -> Seq<char> {
    "This RiveScript document declares a `! version` number higher than we support"@
}

pub open spec fn fail_message(k: ParseFail) -> Seq<char> {
    match k {
        ParseFail::BadVersion => bad_version_message(),
        ParseFail::VersionTooNew => version_too_new_message(),
    }
}

// == the version grammar ==
/// Count of '.' characters.
pub open spec fn dot_count(s: Seq<char>) -> int
    decreases s.len(),
{
    if s.len() == 0 {
        0
    } else {
        dot_count(s.drop_last()) + if s.last() == '.' {
            1int
        } else {
            0int
        }
    }
}

/// A version value: digits with at most one decimal point and at
/// least one digit.
pub open spec fn version_chars_ok(s: Seq<char>) -> bool {
    &&& s.len() > 0
    &&& forall|i: int| 0 <= i < s.len() ==> is_digit_char(s[i]) || s[i] == '.'
    &&& exists|i: int| 0 <= i < s.len() && is_digit_char(s[i])
    &&& dot_count(s) <= 1
}

/// The digits before the decimal point.
pub open spec fn version_int_part(s: Seq<char>) -> Seq<char> {
    let d = find_sub(s, "."@);
    if d < 0 {
        s
    } else {
        s.subrange(0, d)
    }
}

/// The digits after the decimal point.
pub open spec fn version_frac_part(s: Seq<char>) -> Seq<char> {
    let d = find_sub(s, "."@);
    if d < 0 {
        Seq::empty()
    } else {
        s.skip(d + 1)
    }
}

/// Leading zeros removed.
pub open spec fn strip_zeros(s: Seq<char>) -> Seq<char>
    decreases s.len(),
{
    if s.len() > 0 && s[0] == '0' {
        strip_zeros(s.drop_first())
    } else {
        s
    }
}

/// Every digit is zero: the declared version is 0, which the parser
/// rejects just like an unparsable one.
pub open spec fn version_is_zero(s: Seq<char>) -> bool {
    forall|i: int| 0 <= i < s.len() ==> s[i] == '0' || s[i] == '.'
}

/// The declared version exceeds the supported `2.0`.
pub open spec fn version_gt_supported(s: Seq<char>) -> bool {
    let sig = strip_zeros(version_int_part(s));
    ||| sig.len() > 1
    ||| (sig.len() == 1 && digit_val(sig[0]) > 2)
    ||| (sig.len() == 1 && digit_val(sig[0]) == 2 && exists|i: int|
        0 <= i < version_frac_part(s).len() && version_frac_part(s)[i] != '0')
}

/// The version value in millionths, truncating the fraction after six
/// digits.
pub open spec fn version_millionths(s: Seq<char>) -> int {
    let frac6 = (version_frac_part(s) + seq!['0', '0', '0', '0', '0', '0']).subrange(0, 6);
    digits_val(version_int_part(s)) * 1_000_000 + digits_val(frac6)
}

proof fn lemma_zero_digits_val(s: Seq<char>)
    requires
        forall|i: int| 0 <= i < s.len() ==> s[i] == '0',
    ensures
        digits_val(s) == 0,
    decreases s.len(),
{
    if s.len() > 0 {
        lemma_zero_digits_val(s.drop_last());
    }
}

/// Ten to the `n`.
pub open spec fn ten_to(n: nat) -> int
    decreases n,
{
    if n == 0 {
        1
    } else {
        10 * ten_to((n - 1) as nat)
    }
}

proof fn lemma_digits_below_ten_to(s: Seq<char>)
    ensures
        0 <= digits_val(s) < ten_to(s.len()),
    decreases s.len(),
{
    if s.len() > 0 {
        lemma_digits_below_ten_to(s.drop_last());
        assert(digit_val(s.last()) <= 9);
        assert(ten_to(s.len()) == 10 * ten_to((s.len() - 1) as nat));
    }
}

/// An accepted version never exceeds the supported one: `def_step`
/// admits exactly the versions whose value fits under
/// `supported_version`.
pub proof fn lemma_accepted_version_in_range(s: Seq<char>)
    requires
        version_chars_ok(s),
        !version_gt_supported(s),
    ensures
        0 <= version_millionths(s) <= supported_version(),
{
    let ip = version_int_part(s);
    let fp = version_frac_part(s);
    let sig = strip_zeros(ip);
    let frac6 = (fp + seq!['0', '0', '0', '0', '0', '0']).subrange(0, 6);
    lemma_digits_strip(ip);
    lemma_digits_below_ten_to(frac6);
    assert(ten_to(0) == 1);
    assert(ten_to(1) == 10);
    assert(ten_to(2) == 100);
    assert(ten_to(3) == 1000);
    assert(ten_to(4) == 10000);
    assert(ten_to(5) == 100000);
    assert(ten_to(6) == 1_000_000);
    if sig.len() == 0 {
        assert(digits_val(sig) == 0);
    } else {
        assert(sig.len() == 1);
        assert(digits_val(sig) == digits_val(sig.drop_last()) * 10 + digit_val(sig.last()));
        assert(sig.drop_last() =~= Seq::<char>::empty());
        if digit_val(sig[0]) == 2 {
            // with an integer part of two, every fractional digit is zero
            assert forall|i: int| 0 <= i < frac6.len() implies frac6[i] == '0' by {
                if i < fp.len() {
                    assert(fp[i] == '0');
                }
            }
            lemma_zero_digits_val(frac6);
        } else {
            assert(digit_val(sig[0]) <= 1);
        }
    }
}

// == the parser state ==
/// State carried from one line to the next.
#[verifier::ext_equal]
pub ghost struct PState {
    /// The tree built so far.
    pub ast: AstV,
    /// Name of the topic new triggers enter.
    pub topic: Seq<char>,
    /// The trigger under construction.
    pub cur: TriggerV,
    /// Inside a `/* ... */` block.
    pub in_comment: bool,
    /// Inside a `> object ... < object` block.
    pub in_object: bool,
    pub obj_name: Seq<char>,
    pub obj_lang: Seq<char>,
    pub obj_buf: Seq<Seq<char>>,
    /// File-scoped parser options set by `! local`.
    pub options: Map<Seq<char>, Seq<char>>,
}

/// State before any line: the default topic exists and the only option
/// is the concatenation mode placeholder.
pub open spec fn init_state() -> PState {
    PState {
        ast: AstV { topics: Map::empty().insert("random"@, empty_topic()), ..empty_ast() },
        topic: "random"@,
        cur: empty_trigger(),
        in_comment: false,
        in_object: false,
        obj_name: Seq::empty(),
        obj_lang: Seq::empty(),
        obj_buf: Seq::empty(),
        options: Map::empty().insert("concat"@, "none"@),
    }
}

/// Commits the trigger under construction to its topic; a trigger with
/// an empty pattern never enters a topic.
pub open spec fn flush_trigger(ast: AstV, topic: Seq<char>, cur: TriggerV) -> AstV {
    if cur.trigger.len() > 0 && ast.topics.contains_key(topic) {
        AstV {
            topics: ast.topics.insert(
                topic,
                TopicV {
                    triggers: ast.topics[topic].triggers.push(cur),
                    ..ast.topics[topic]
                },
            ),
            ..ast
        }
    } else {
        ast
    }
}

/// The continuation text gathered by the lookahead: each following
/// `^` line with a payload joins on a soft line-break marker; short
/// lines are passed over, anything else stops the scan.
pub open spec fn cont_collect(lines: Seq<Seq<char>>, j: int) -> Seq<char>
    decreases lines.len() - j,
{
    if j < 0 || j >= lines.len() {
        Seq::empty()
    } else {
        let la_full = trim_spec(lines[j]);
        if la_full.len() < 2 {
            cont_collect(lines, j + 1)
        } else {
            let la = trim_spec(la_full.skip(1));
            if la_full[0] != '^' || la.len() == 0 {
                Seq::empty()
            } else {
                "<crlf>"@ + la + cont_collect(lines, j + 1)
            }
        }
    }
}

/// Result of a definition line.
pub ghost enum DefStep {
    Fail(ParseFail),
    Keep(AstV, Map<Seq<char>, Seq<char>>),
}

/// One row of an array definition: split on `|` when a pipe occurs in
/// the row, on whitespace otherwise.
pub open spec fn row_words(row: Seq<char>) -> Seq<Seq<char>> {
    if contains_sub(row, "|"@) {
        split_spec(row, "|"@)
    } else {
        split_ws_spec(row)
    }
}

/// All words of all rows from `i` on, in order.
pub open spec fn rows_words(rows: Seq<Seq<char>>, i: int) -> Seq<Seq<char>>
    decreases rows.len() - i,
{
    if i < 0 || i >= rows.len() {
        Seq::empty()
    } else {
        row_words(rows[i]) + rows_words(rows, i + 1)
    }
}

/// The word list of an array definition: rows split at the soft
/// line-break markers, each row split into words, and the `\s` escape
/// turned into a literal space in every word.
pub open spec fn array_words(value: Seq<char>) -> Seq<Seq<char>> {
    rows_words(split_spec(value, "<crlf>"@), 0).map_values(
        |w: Seq<char>| replace_spec(w, "\\s"@, " "@),
    )
}

/// The version value with an optional leading plus sign removed; the
/// rest must be decimal digits with at most one point.
pub open spec fn version_text(s: Seq<char>) -> Seq<char> {
    if s.len() > 0 && s[0] == '+' {
        s.drop_first()
    } else {
        s
    }
}

/// Effect of a `!` definition line on the tree and the local options.
pub open spec fn def_step(ast: AstV, opts: Map<Seq<char>, Seq<char>>, rest: Seq<char>) -> DefStep {
    let eq = find_sub(rest, "="@);
    let left = if eq >= 0 {
        trim_spec(rest.subrange(0, eq))
    } else {
        trim_spec(rest)
    };
    let right = if eq >= 0 {
        trim_spec(rest.skip(eq + 1))
    } else {
        Seq::empty()
    };
    let sp = find_sub(left, " "@);
    let kind = if sp >= 0 {
        trim_spec(left.subrange(0, sp))
    } else {
        left
    };
    let name = if sp >= 0 {
        trim_spec(left.skip(sp + 1))
    } else {
        Seq::empty()
    };
    let value = if kind != "array"@ {
        replace_spec(right, "<crlf>"@, Seq::empty())
    } else {
        right
    };
    if kind == "version"@ {
        let vt = version_text(value);
        if !version_chars_ok(vt) || version_is_zero(vt) {
            DefStep::Fail(ParseFail::BadVersion)
        } else if version_gt_supported(vt) {
            DefStep::Fail(ParseFail::VersionTooNew)
        } else {
            DefStep::Keep(AstV { version: version_millionths(vt), ..ast }, opts)
        }
    } else if name.len() == 0 || value.len() == 0 {
        DefStep::Keep(ast, opts)
    } else if kind == "local"@ {
        DefStep::Keep(ast, opts.insert(name, value))
    } else if kind == "global"@ {
        DefStep::Keep(AstV { globals: ast.globals.insert(name, value), ..ast }, opts)
    } else if kind == "var"@ {
        DefStep::Keep(AstV { vars: ast.vars.insert(name, value), ..ast }, opts)
    } else if kind == "sub"@ {
        DefStep::Keep(AstV { subs: ast.subs.insert(name, value), ..ast }, opts)
    } else if kind == "person"@ {
        DefStep::Keep(AstV { person: ast.person.insert(name, value), ..ast }, opts)
    } else if kind == "array"@ {
        DefStep::Keep(AstV { arrays: ast.arrays.insert(name, array_words(value)), ..ast }, opts)
    } else {
        DefStep::Keep(ast, opts)
    }
}

/// Folds the trailing fields of a `> topic` label into the topic's
/// include and inherit sets, switching mode at the `includes` and
/// `inherits` keywords; fields before any keyword are ignored, and so
/// is the topic's own name: a topic never includes or inherits itself.
pub open spec fn relations_fold(
    t: TopicV,
    name: Seq<char>,
    fields: Seq<Seq<char>>,
    i: int,
    mode: Seq<char>,
) -> TopicV
    decreases fields.len() - i,
{
    if i < 0 || i >= fields.len() {
        t
    } else {
        let f = fields[i];
        if f == "includes"@ || f == "inherits"@ {
            relations_fold(t, name, fields, i + 1, f)
        } else if f == name {
            relations_fold(t, name, fields, i + 1, mode)
        } else if mode == "includes"@ {
            relations_fold(
                TopicV { includes: t.includes.insert(f), ..t },
                name,
                fields,
                i + 1,
                mode,
            )
        } else if mode == "inherits"@ {
            relations_fold(
                TopicV { inherits: t.inherits.insert(f), ..t },
                name,
                fields,
                i + 1,
                mode,
            )
        } else {
            relations_fold(t, name, fields, i + 1, mode)
        }
    }
}

/// Effect of a `>` label line.  `> begin` is a synonym for
/// `> topic __begin__`.  A topic label finalizes the trigger under
/// construction into the previous topic, then switches to the named
/// topic.  An object label opens capture mode; with no language tag the
/// body is captured but the object is never sealed into the tree.
pub open spec fn label_step(st: PState, rest: Seq<char>) -> PState {
    let fields = split_ws_spec(rest);
    if fields.len() == 0 {
        st
    } else {
        let kind0 = fields[0];
        let name0 = if fields.len() >= 2 {
            fields[1]
        } else {
            Seq::empty()
        };
        let kind = if kind0 == "begin"@ {
            "topic"@
        } else {
            kind0
        };
        let name = if kind0 == "begin"@ {
            "__begin__"@
        } else {
            name0
        };
        if kind == "topic"@ {
            let ast1 = flush_trigger(st.ast, st.topic, st.cur);
            let ast2 = if ast1.topics.contains_key(name) {
                ast1
            } else {
                AstV { topics: ast1.topics.insert(name, empty_topic()), ..ast1 }
            };
            let t1 = relations_fold(ast2.topics[name], name, fields, 2, Seq::empty());
            let ast3 = AstV { topics: ast2.topics.insert(name, t1), ..ast2 };
            PState { ast: ast3, topic: name, cur: empty_trigger(), ..st }
        } else if kind == "object"@ {
            let lang0 = if fields.len() >= 3 {
                fields[2]
            } else {
                Seq::empty()
            };
            PState {
                in_object: true,
                obj_name: name,
                obj_lang: lower_spec(lang0),
                obj_buf: Seq::empty(),
                ..st
            }
        } else {
            st
        }
    }
}

/// Result of one line.
pub ghost enum LineStep {
    Keep(PState),
    Fatal(ParseFail),
}

/// Effect of the line at position `i` on the parser state.
pub open spec fn line_step(lines: Seq<Seq<char>>, i: int, st: PState) -> LineStep {
    let line = trim_spec(lines[i]);
    if line.len() == 0 {
        LineStep::Keep(st)
    } else if st.in_object {
        if contains_sub(line, "< object"@) || contains_sub(line, "<object"@) {
            if st.obj_name.len() > 0 {
                let ast1 = if st.obj_lang.len() > 0 {
                    AstV {
                        objects: st.ast.objects.insert(
                            st.obj_name,
                            ObjectV {
                                name: st.obj_name,
                                language: st.obj_lang,
                                code: st.obj_buf,
                            },
                        ),
                        ..st.ast
                    }
                } else {
                    st.ast
                };
                LineStep::Keep(PState { ast: ast1, in_object: false, ..st })
            } else {
                LineStep::Keep(st)
            }
        } else {
            LineStep::Keep(PState { obj_buf: st.obj_buf.push(line), ..st })
        }
    } else if matches_prefix(line, "//"@) {
        LineStep::Keep(st)
    } else if matches_prefix(line, "/*"@) {
        if contains_sub(line, "*/"@) {
            LineStep::Keep(st)
        } else {
            LineStep::Keep(PState { in_comment: true, ..st })
        }
    } else if contains_sub(line, "*/"@) {
        LineStep::Keep(PState { in_comment: false, ..st })
    } else if st.in_comment {
        LineStep::Keep(st)
    } else if line.len() < 2 {
        LineStep::Keep(st)
    } else {
        let cmd = line[0];
        let rest0 = trim_spec(line.skip(1));
        let ic = find_sub(rest0, " // "@);
        let rest = if ic >= 0 {
            rest0.subrange(0, ic)
        } else {
            rest0
        };
        if cmd == '!' {
            match def_step(st.ast, st.options, rest + cont_collect(lines, i + 1)) {
                DefStep::Fail(k) => LineStep::Fatal(k),
                DefStep::Keep(ast2, opts2) => LineStep::Keep(
                    PState { ast: ast2, options: opts2, ..st },
                ),
            }
        } else if cmd == '>' {
            LineStep::Keep(label_step(st, rest))
        } else if cmd == '<' {
            if rest == "begin"@ || rest == "topic"@ {
                LineStep::Keep(
                    PState {
                        ast: flush_trigger(st.ast, st.topic, st.cur),
                        topic: "random"@,
                        cur: empty_trigger(),
                        ..st
                    },
                )
            } else {
                LineStep::Keep(st)
            }
        } else if cmd == '+' {
            LineStep::Keep(
                PState {
                    ast: flush_trigger(st.ast, st.topic, st.cur),
                    cur: TriggerV { trigger: rest, ..empty_trigger() },
                    ..st
                },
            )
        } else if cmd == '%' {
            LineStep::Keep(PState { cur: TriggerV { previous: rest, ..st.cur }, ..st })
        } else if cmd == '-' {
            LineStep::Keep(PState { cur: TriggerV { reply: st.cur.reply.push(rest), ..st.cur }, ..st })
        } else if cmd == '*' {
            LineStep::Keep(
                PState { cur: TriggerV { condition: st.cur.condition.push(rest), ..st.cur }, ..st },
            )
        } else if cmd == '@' {
            LineStep::Keep(PState { cur: TriggerV { redirect: rest, ..st.cur }, ..st })
        } else {
            LineStep::Keep(st)
        }
    }
}

/// `pat` is a prefix of `s`.
pub open spec fn matches_prefix(s: Seq<char>, pat: Seq<char>) -> bool {
    crate::text::matches_at(s, pat, 0)
}

/// What parsing yields: the finished tree, or a fatal failure.
pub ghost enum POutcome {
    Success(AstV),
    Fail(ParseFail),
}

/// Folds the lines from position `i` through the state machine; at end
/// of input the trigger under construction is finalized.
pub open spec fn parse_from(lines: Seq<Seq<char>>, i: int, st: PState) -> POutcome
    decreases lines.len() - i,
{
    if i < 0 || i >= lines.len() {
        POutcome::Success(flush_trigger(st.ast, st.topic, st.cur))
    } else {
        match line_step(lines, i, st) {
            LineStep::Fatal(k) => POutcome::Fail(k),
            LineStep::Keep(st2) => parse_from(lines, i + 1, st2),
        }
    }
}

/// What parsing a whole document means: its text split into lines and
/// folded from the initial state.
pub open spec fn parse_doc(text: Seq<char>) -> POutcome {
    parse_from(split_spec(text, "\n"@), 0, init_state())
}


// == the executable parser ==
/// The literal tokens of the syntax, held as character vectors so the
/// character-level helpers can search for them.
struct Pats {
    newline: Vec<char>,
    slash2: Vec<char>,
    copen: Vec<char>,
    cclose: Vec<char>,
    inline_c: Vec<char>,
    close_obj_sp: Vec<char>,
    close_obj: Vec<char>,
    eq: Vec<char>,
    space: Vec<char>,
    crlf: Vec<char>,
    esc_s: Vec<char>,
    pipe: Vec<char>,
    dot: Vec<char>,
    version_k: Vec<char>,
    local_k: Vec<char>,
    global_k: Vec<char>,
    var_k: Vec<char>,
    sub_k: Vec<char>,
    person_k: Vec<char>,
    array_k: Vec<char>,
    begin_k: Vec<char>,
    topic_k: Vec<char>,
    object_k: Vec<char>,
    includes_k: Vec<char>,
    inherits_k: Vec<char>,
}

impl Pats {
    spec fn wf(&self) -> bool {
        &&& self.newline@ == "\n"@
        &&& self.slash2@ == "//"@
        &&& self.copen@ == "/*"@
        &&& self.cclose@ == "*/"@
        &&& self.inline_c@ == " // "@
        &&& self.close_obj_sp@ == "< object"@
        &&& self.close_obj@ == "<object"@
        &&& self.eq@ == "="@
        &&& self.space@ == " "@
        &&& self.crlf@ == "<crlf>"@
        &&& self.esc_s@ == "\\s"@
        &&& self.pipe@ == "|"@
        &&& self.dot@ == "."@
        &&& self.version_k@ == "version"@
        &&& self.local_k@ == "local"@
        &&& self.global_k@ == "global"@
        &&& self.var_k@ == "var"@
        &&& self.sub_k@ == "sub"@
        &&& self.person_k@ == "person"@
        &&& self.array_k@ == "array"@
        &&& self.begin_k@ == "begin"@
        &&& self.topic_k@ == "topic"@
        &&& self.object_k@ == "object"@
        &&& self.includes_k@ == "includes"@
        &&& self.inherits_k@ == "inherits"@
        &&& self.newline@.len() == 1
        &&& self.slash2@.len() == 2
        &&& self.copen@.len() == 2
        &&& self.cclose@.len() == 2
        &&& self.inline_c@.len() == 4
        &&& self.close_obj_sp@.len() == 8
        &&& self.close_obj@.len() == 7
        &&& self.eq@.len() == 1
        &&& self.space@.len() == 1
        &&& self.crlf@.len() == 6
        &&& self.esc_s@.len() == 2
        &&& self.pipe@.len() == 1
        &&& self.dot@.len() == 1
    }

    fn new() -> (r: Self)
        ensures
            r.wf(),
    {
        proof {
            reveal_strlit("\n");
            reveal_strlit("//");
            reveal_strlit("/*");
            reveal_strlit("*/");
            reveal_strlit(" // ");
            reveal_strlit("< object");
            reveal_strlit("<object");
            reveal_strlit("=");
            reveal_strlit(" ");
            reveal_strlit("<crlf>");
            reveal_strlit("\\s");
            reveal_strlit("|");
            reveal_strlit(".");
        }
        Pats {
            newline: str_to_chars("\n"),
            slash2: str_to_chars("//"),
            copen: str_to_chars("/*"),
            cclose: str_to_chars("*/"),
            inline_c: str_to_chars(" // "),
            close_obj_sp: str_to_chars("< object"),
            close_obj: str_to_chars("<object"),
            eq: str_to_chars("="),
            space: str_to_chars(" "),
            crlf: str_to_chars("<crlf>"),
            esc_s: str_to_chars("\\s"),
            pipe: str_to_chars("|"),
            dot: str_to_chars("."),
            version_k: str_to_chars("version"),
            local_k: str_to_chars("local"),
            global_k: str_to_chars("global"),
            var_k: str_to_chars("var"),
            sub_k: str_to_chars("sub"),
            person_k: str_to_chars("person"),
            array_k: str_to_chars("array"),
            begin_k: str_to_chars("begin"),
            topic_k: str_to_chars("topic"),
            object_k: str_to_chars("object"),
            includes_k: str_to_chars("includes"),
            inherits_k: str_to_chars("inherits"),
        }
    }
}

/// The mutable state of a parse in progress; its view is the spec
/// state `PState`.
struct ParserState {
    ast: AST,
    topic: String,
    cur: Trigger,
    in_comment: bool,
    in_object: bool,
    obj_name: Vec<char>,
    obj_lang: Vec<char>,
    obj_buf: Vec<String>,
    options: StrMap<String>,
}

impl View for ParserState {
    type V = PState;

    closed spec fn view(&self) -> PState {
        PState {
            ast: self.ast@,
            topic: self.topic@,
            cur: self.cur.deep_view(),
            in_comment: self.in_comment,
            in_object: self.in_object,
            obj_name: self.obj_name@,
            obj_lang: self.obj_lang@,
            obj_buf: self.obj_buf.deep_view(),
            options: self.options@,
        }
    }
}

impl ParserState {
    spec fn wf(&self) -> bool {
        self.ast.wf() && self.options.wf()
    }
}

/// Commits the trigger under construction into the active topic and
/// starts a fresh one, mirroring `flush_trigger`.
fn flush_cur(st: &mut ParserState)
    requires
        old(st).wf(),
    ensures
        final(st).wf(),
        final(st)@ == (PState {
            ast: flush_trigger(old(st)@.ast, old(st)@.topic, old(st)@.cur),
            cur: empty_trigger(),
            ..old(st)@
        }),
{
    let populated = st.cur.is_populated();
    if populated {
        let key = st.topic.clone();
        match st.ast.topics.take(key.as_str()) {
            Some(mut t) => {
                let cur = st.cur.clone();
                t.add_trigger(cur);
                st.ast.topics.insert(key, t);
                proof {
                    assert(st.ast.topics@ =~~= old(st).ast.topics@.insert(
                        old(st)@.topic,
                        TopicV {
                            triggers: old(st)@.ast.topics[old(st)@.topic].triggers.push(
                                old(st)@.cur,
                            ),
                            ..old(st)@.ast.topics[old(st)@.topic]
                        },
                    ));
                }
            },
            None => {
            },
        }
    }
    st.cur = Trigger::new("");
    proof {
        reveal_strlit("");
        assert(st.cur.deep_view().trigger =~= empty_trigger().trigger);
        assert(st.cur.deep_view() =~~= empty_trigger());
        assert(st@ =~~= (PState {
            ast: flush_trigger(old(st)@.ast, old(st)@.topic, old(st)@.cur),
            cur: empty_trigger(),
            ..old(st)@
        }));
    }
}

/// Gathers the `^` continuation payloads that follow position
/// `start - 1`, joined on the soft line-break marker.
fn collect_cont(lines: &Vec<Vec<char>>, start: usize, pats: &Pats) -> (r: Vec<char>)
    requires
        pats.wf(),
    ensures
        r@ == cont_collect(lines.deep_view(), start as int),
{
    let ghost lv = lines.deep_view();
    let n = lines.len();
    let mut r: Vec<char> = Vec::new();
    let mut j: usize = start;
    let mut going = true;
    proof {
        assert(r@ + cont_collect(lv, start as int) =~= cont_collect(lv, start as int));
    }
    while going && j < n
        invariant
            pats.wf(),
            lv == lines.deep_view(),
            n == lines@.len(),
            start <= j,
            going ==> cont_collect(lv, start as int) == r@ + cont_collect(lv, j as int),
            !going ==> r@ == cont_collect(lv, start as int),
        decreases n - j + (if going { 1int } else { 0int }),
    {
        let ghost r0 = r@;
        proof {
            assert(lines@[j as int]@ == lv[j as int]);
        }
        let la_full = trim_chars(&lines[j]);
        if la_full.len() < 2 {
            j += 1;
        } else {
            let tail = sub_chars(&la_full, 1, la_full.len());
            let la = trim_chars(&tail);
            proof {
                assert(tail@ =~= la_full@.skip(1));
            }
            if la_full[0] != '^' || la.len() == 0 {
                going = false;
                proof {
                    assert(cont_collect(lv, j as int) =~= Seq::<char>::empty());
                    assert(r0 + cont_collect(lv, j as int) =~= r0);
                }
            } else {
                push_all(&mut r, &pats.crlf);
                push_all(&mut r, &la);
                proof {
                    assert(cont_collect(lv, j as int) == "<crlf>"@ + la@ + cont_collect(
                        lv,
                        j + 1,
                    ));
                    assert(r0 + ("<crlf>"@ + la@ + cont_collect(lv, j + 1)) =~= ((r0 + "<crlf>"@)
                        + la@) + cont_collect(lv, j + 1));
                }
                j += 1;
            }
        }
    }
    proof {
        if going {
            assert(j >= n);
            assert(cont_collect(lv, j as int) =~= Seq::<char>::empty());
            assert(r@ + Seq::<char>::empty() =~= r@);
        }
    }
    r
}


// == version parsing ==
proof fn lemma_strip_zeros_range(s: Seq<char>, z: int)
    requires
        0 <= z <= s.len(),
        forall|k: int| 0 <= k < z ==> s[k] == '0',
        z == s.len() || s[z] != '0',
    ensures
        strip_zeros(s) == s.subrange(z, s.len() as int),
    decreases z,
{
    if z == 0 {
        assert(s.subrange(0, s.len() as int) =~= s);
    } else {
        lemma_strip_zeros_range(s.drop_first(), z - 1);
        assert(s.drop_first().subrange(z - 1, s.drop_first().len() as int) =~= s.subrange(
            z,
            s.len() as int,
        ));
    }
}

/// Leading zeros do not change the numeric value.
proof fn lemma_digits_strip(s: Seq<char>)
    ensures
        digits_val(strip_zeros(s)) == digits_val(s),
    decreases s.len(),
{
    if s.len() > 0 && s[0] == '0' {
        lemma_digits_drop_zero(s);
        lemma_digits_strip(s.drop_first());
    }
}

proof fn lemma_digits_drop_zero(s: Seq<char>)
    requires
        s.len() > 0,
        s[0] == '0',
    ensures
        digits_val(s) == digits_val(s.drop_first()),
    decreases s.len(),
{
    if s.len() == 1 {
        assert(s.drop_last() =~= Seq::<char>::empty());
        assert(s.last() == '0');
        assert(digits_val(s) == digits_val(s.drop_last()) * 10 + digit_val(s.last()));
        assert(s.drop_first() =~= Seq::<char>::empty());
    } else {
        lemma_digits_drop_zero(s.drop_last());
        assert(s.drop_last()[0] == '0');
        assert(s.drop_first().drop_last() =~= s.drop_last().drop_first());
        assert(s.drop_first().last() == s.last());
        assert(digits_val(s) == digits_val(s.drop_last()) * 10 + digit_val(s.last()));
        assert(digits_val(s.drop_first()) == digits_val(s.drop_first().drop_last()) * 10
            + digit_val(s.drop_first().last()));
    }
}

/// A dot at each of two positions forces a dot count of at least two.
proof fn lemma_one_dot(s: Seq<char>, p: int)
    requires
        0 <= p < s.len(),
        s[p] == '.',
    ensures
        dot_count(s) >= 1,
        dot_count(s) >= 0,
    decreases s.len(),
{
    lemma_dots_nonneg(s);
    lemma_dots_nonneg(s.drop_last());
    if p < s.len() - 1 {
        lemma_one_dot(s.drop_last(), p);
    }
}

proof fn lemma_dots_nonneg(s: Seq<char>)
    ensures
        dot_count(s) >= 0,
    decreases s.len(),
{
    if s.len() > 0 {
        lemma_dots_nonneg(s.drop_last());
    }
}

proof fn lemma_two_dots(s: Seq<char>, p: int, q: int)
    requires
        0 <= p < q < s.len(),
        s[p] == '.',
        s[q] == '.',
    ensures
        dot_count(s) >= 2,
    decreases s.len(),
{
    if q == s.len() - 1 {
        lemma_one_dot(s.drop_last(), p);
    } else {
        lemma_two_dots(s.drop_last(), p, q);
    }
}

/// Checks and reads a `! version` value, mirroring the spec version
/// functions exactly.
fn exec_version(ast: &mut AST, value: &Vec<char>, pats: &Pats) -> (r: Option<ParseFail>)
    requires
        old(ast).wf(),
        pats.wf(),
    ensures
        final(ast).wf(),
        !version_chars_ok(value@) || version_is_zero(value@) ==> r == Some(
            ParseFail::BadVersion,
        ) && *final(ast) == *old(ast),
        version_chars_ok(value@) && !version_is_zero(value@) && version_gt_supported(value@)
            ==> r == Some(ParseFail::VersionTooNew) && *final(ast) == *old(ast),
        version_chars_ok(value@) && !version_is_zero(value@) && !version_gt_supported(value@)
            ==> r is None && final(ast)@ == (AstV {
            version: version_millionths(value@),
            ..old(ast)@
        }),
{
    let n = value.len();
    let mut dots: usize = 0;
    let mut has_digit = false;
    let mut zero_ok = true;
    let mut bad = false;
    let mut i: usize = 0;
    while i < n
        invariant
            n == value@.len(),
            i <= n,
            dots <= i,
            dots == dot_count(value@.subrange(0, i as int)),
            has_digit == exists|k: int| 0 <= k < i && is_digit_char(value@[k]),
            zero_ok == forall|k: int| 0 <= k < i ==> value@[k] == '0' || value@[k] == '.',
            bad == !(forall|k: int| 0 <= k < i ==> is_digit_char(value@[k]) || value@[k] == '.'),
        decreases n - i,
    {
        let c = value[i];
        proof {
            assert(value@.subrange(0, i + 1 as int).drop_last() =~= value@.subrange(0, i as int));
        }
        let ghost hd0 = has_digit;
        let ghost zok0 = zero_ok;
        let ghost bad0 = bad;
        if is_digit(c) {
            has_digit = true;
        } else if c == '.' {
            dots += 1;
        } else {
            bad = true;
        }
        if !(c == '0' || c == '.') {
            zero_ok = false;
        }
        proof {
            if has_digit {
                if hd0 {
                } else {
                    assert(is_digit_char(value@[i as int]));
                }
            }
        }
        i += 1;
    }
    proof {
        assert(value@.subrange(0, n as int) =~= value@);
    }
    let ok = n > 0 && !bad && has_digit && dots <= 1;
    if !ok || zero_ok {
        proof {
            assert(!version_chars_ok(value@) || version_is_zero(value@));
        }
        return Some(ParseFail::BadVersion);
    }
    // split into integer and fractional digits
    let (ip, fp): (Vec<char>, Vec<char>) = match find_in(value, &pats.dot) {
        Some(d) => {
            proof {
                crate::text::lemma_find_sub_props(value@, "."@);
                assert(crate::text::matches_at(value@, "."@, d as int));
            }
            (sub_chars(value, 0, d), sub_chars(value, d + 1, n))
        },
        None => (sub_chars(value, 0, n), Vec::new()),
    };
    proof {
        assert(ip@ == version_int_part(value@));
        assert(fp@ =~= version_frac_part(value@));
    }
    // significant digits of the integer part
    let m = ip.len();
    let mut z: usize = 0;
    while z < m && ip[z] == '0'
        invariant
            m == ip@.len(),
            z <= m,
            forall|k: int| 0 <= k < z ==> ip@[k] == '0',
        decreases m - z,
    {
        z += 1;
    }
    proof {
        lemma_strip_zeros_range(ip@, z as int);
    }
    let sig_len = m - z;
    if sig_len > 1 {
        proof {
            assert(version_gt_supported(value@));
        }
        return Some(ParseFail::VersionTooNew);
    }
    if sig_len == 1 {
        let d0 = ip[z];
        proof {
            assert(strip_zeros(ip@)[0] == ip@[z as int]);
        }
        if d0 == '3' || d0 == '4' || d0 == '5' || d0 == '6' || d0 == '7' || d0 == '8' || d0 == '9'
        {
            proof {
                assert(digit_val(strip_zeros(ip@)[0]) > 2);
                assert(version_gt_supported(value@));
            }
            return Some(ParseFail::VersionTooNew);
        }
        if d0 == '2' {
            let fn_ = fp.len();
            let mut q: usize = 0;
            while q < fn_ && fp[q] == '0'
                invariant
                    fn_ == fp@.len(),
                    q <= fn_,
                    forall|k: int| 0 <= k < q ==> fp@[k] == '0',
                decreases fn_ - q,
            {
                q += 1;
            }
            if q < fn_ {
                proof {
                    assert(fp@[q as int] != '0');
                    assert(version_gt_supported(value@));
                }
                return Some(ParseFail::VersionTooNew);
            }
        }
    }
    proof {
        assert(!version_gt_supported(value@));
    }
    // the value fits comfortably: at most one significant integer digit
    proof {
        reveal_strlit(".");
        crate::text::lemma_find_sub_props(value@, "."@);
        let d = find_sub(value@, "."@);
        assert forall|k: int| 0 <= k < ip@.len() implies is_digit_char(ip@[k]) by {
            assert(ip@[k] == value@[k]);
            if value@[k] == '.' {
                assert(value@.subrange(k, k + 1) =~= "."@);
                assert(crate::text::matches_at(value@, "."@, k));
                if d < 0 {
                } else {
                    assert(k < d);
                    assert(!crate::text::matches_at(value@, "."@, k));
                }
            }
        }
        assert forall|k: int| 0 <= k < fp@.len() implies is_digit_char(fp@[k]) by {
            assert(d >= 0);
            assert(fp@[k] == value@[d + 1 + k]);
            if value@[d + 1 + k] == '.' {
                assert(value@[d] == '.') by {
                    assert(crate::text::matches_at(value@, "."@, d));
                    assert(value@.subrange(d, d + 1)[0] == value@[d]);
                }
                lemma_two_dots(value@, d, d + 1 + k);
            }
        }
        lemma_digits_strip(ip@);
        if sig_len == 0 {
            assert(strip_zeros(ip@) =~= Seq::<char>::empty());
            assert(digits_val(ip@) == 0);
        } else {
            let sg = strip_zeros(ip@);
            assert(sg.len() == 1);
            assert(digits_val(sg) == digits_val(sg.drop_last()) * 10 + digit_val(sg.last()));
            assert(sg.drop_last() =~= Seq::<char>::empty());
            assert(digits_val(ip@) <= 9);
        }
    }
    let iv = match digits_to_u64(&ip) {
        Some(v) => v,
        None => {
            proof {
                assert(false);
            }
            0
        },
    };
    let mut f6: Vec<char> = Vec::new();
    let mut w: usize = 0;
    while w < 6
        invariant
            w <= 6,
            f6@.len() == w,
            forall|k: int|
                0 <= k < w ==> f6@[k] == if k < fp@.len() {
                    fp@[k]
                } else {
                    '0'
                },
        decreases 6 - w,
    {
        if w < fp.len() {
            f6.push(fp[w]);
        } else {
            f6.push('0');
        }
        w += 1;
    }
    proof {
        assert(f6@ =~= (version_frac_part(value@) + seq!['0', '0', '0', '0', '0', '0']).subrange(
            0,
            6,
        ));
        assert(forall|k: int| 0 <= k < f6@.len() ==> is_digit_char(f6@[k]));
        lemma_digits_below_ten_to(f6@);
        assert(ten_to(0) == 1);
        assert(ten_to(1) == 10);
        assert(ten_to(2) == 100);
        assert(ten_to(3) == 1000);
        assert(ten_to(4) == 10000);
        assert(ten_to(5) == 100000);
        assert(ten_to(6) == 1_000_000);
    }
    let fv = match digits_to_u64(&f6) {
        Some(v) => v,
        None => {
            proof {
                assert(false);
            }
            0
        },
    };
    ast.version = iv * 1_000_000 + fv;
    proof {
        assert(final(ast)@ =~~= (AstV { version: version_millionths(value@), ..old(ast)@ }));
    }
    None
}


/// Builds the word list of an array definition, mirroring
/// `array_words`.
fn array_values(value: &Vec<char>, pats: &Pats) -> (r: Vec<String>)
    requires
        pats.wf(),
    ensures
        r.deep_view() == array_words(value@),
{
    let rows = split_in(value, &pats.crlf);
    let ghost rowsv = rows.deep_view();
    let nrows = rows.len();
    let mut raw: Vec<Vec<char>> = Vec::new();
    let mut i: usize = 0;
    proof {
        assert(raw.deep_view() + rows_words(rowsv, 0) =~~= rows_words(rowsv, 0));
    }
    while i < nrows
        invariant
            pats.wf(),
            rowsv == rows.deep_view(),
            nrows == rows@.len(),
            i <= nrows,
            rows_words(rowsv, 0) == raw.deep_view() + rows_words(rowsv, i as int),
        decreases nrows - i,
    {
        let ghost raw0 = raw.deep_view();
        proof {
            assert(rows@[i as int]@ == rowsv[i as int]);
        }
        if contains_in(&rows[i], &pats.pipe) {
            let mut parts = split_in(&rows[i], &pats.pipe);
            let ghost pv = parts.deep_view();
            raw.append(&mut parts);
            proof {
                assert(raw.deep_view() =~~= raw0 + pv);
                assert(pv == row_words(rowsv[i as int]));
            }
        } else {
            let mut parts = split_ws_in(&rows[i]);
            let ghost pv = parts.deep_view();
            raw.append(&mut parts);
            proof {
                assert(raw.deep_view() =~~= raw0 + pv);
                assert(pv == row_words(rowsv[i as int]));
            }
        }
        proof {
            assert(raw0 + (row_words(rowsv[i as int]) + rows_words(rowsv, i + 1)) =~~= (raw0
                + row_words(rowsv[i as int])) + rows_words(rowsv, i + 1));
        }
        i += 1;
    }
    proof {
        assert(raw.deep_view() + rows_words(rowsv, nrows as int) =~~= raw.deep_view());
    }
    let m = raw.len();
    let mut out: Vec<String> = Vec::new();
    let mut j: usize = 0;
    while j < m
        invariant
            pats.wf(),
            m == raw@.len(),
            j <= m,
            out.deep_view() =~= raw.deep_view().take(j as int).map_values(
                |w: Seq<char>| replace_spec(w, "\\s"@, " "@),
            ),
        decreases m - j,
    {
        let w = replace_in(&raw[j], &pats.esc_s, &pats.space);
        proof {
            assert(raw@[j as int]@ == raw.deep_view()[j as int]);
        }
        let ghost d0 = out.deep_view();
        proof {
            assert(d0.len() == j as int);
            assert(out@.len() == j as int);
        }
        out.push(chars_to_string(&w));
        proof {
            assert(out@.len() == j + 1);
            let f = |w: Seq<char>| replace_spec(w, "\\s"@, " "@);
            let lhs = out.deep_view();
            let rhs = raw.deep_view().take(j + 1 as int).map_values(f);
            assert(lhs.len() == j + 1);
            assert(rhs.len() == j + 1);
            assert forall|k: int| 0 <= k < j + 1 implies lhs[k] == rhs[k] by {
                assert(rhs[k] == f(raw.deep_view().take(j + 1 as int)[k]));
                assert(raw.deep_view().take(j + 1 as int)[k] == raw.deep_view()[k]);
                if k < j {
                    assert(lhs[k] == out@[k].deep_view());
                    assert(d0[k] == replace_spec(raw.deep_view().take(j as int)[k], "\\s"@, " "@));
                    assert(raw.deep_view().take(j as int)[k] == raw.deep_view()[k]);
                } else {
                    assert(lhs[k] == w@);
                    assert(w@ == replace_spec(raw.deep_view()[k], "\\s"@, " "@));
                }
            }
            assert(lhs =~~= rhs);
        }
        j += 1;
    }
    proof {
        assert(raw.deep_view().take(m as int) =~= raw.deep_view());
        assert(out.deep_view() =~~= array_words(value@));
    }
    out
}

/// Applies a `!` definition line, mirroring `def_step`.
fn exec_def(st: &mut ParserState, rest: &Vec<char>, pats: &Pats) -> (r: Option<ParseFail>)
    requires
        old(st).wf(),
        pats.wf(),
    ensures
        final(st).wf(),
        match def_step(old(st)@.ast, old(st)@.options, rest@) {
            DefStep::Fail(k) => r == Some(k),
            DefStep::Keep(a2, o2) => r is None && final(st)@ == (PState {
                ast: a2,
                options: o2,
                ..old(st)@
            }),
        },
{
    let n = rest.len();
    let (left_raw, right): (Vec<char>, Vec<char>) = match find_in(rest, &pats.eq) {
        Some(e) => {
            proof {
                crate::text::lemma_find_sub_props(rest@, "="@);
                assert(crate::text::matches_at(rest@, "="@, e as int));
            }
            let lr = sub_chars(rest, 0, e);
            let rr = sub_chars(rest, e + 1, n);
            (trim_chars(&lr), trim_chars(&rr))
        },
        None => (trim_chars(rest), Vec::new()),
    };
    proof {
        assert(rest@.subrange(0, rest@.len() as int) =~= rest@);
    }
    let lw = left_raw.len();
    let (kind, name): (Vec<char>, Vec<char>) = match find_in(&left_raw, &pats.space) {
        Some(sp) => {
            proof {
                crate::text::lemma_find_sub_props(left_raw@, " "@);
                assert(crate::text::matches_at(left_raw@, " "@, sp as int));
            }
            let kr = sub_chars(&left_raw, 0, sp);
            let nr = sub_chars(&left_raw, sp + 1, lw);
            (trim_chars(&kr), trim_chars(&nr))
        },
        None => (left_raw, Vec::new()),
    };
    let is_array = chars_eq(&kind, &pats.array_k);
    let value: Vec<char> = if !is_array {
        let none_rep: Vec<char> = Vec::new();
        let v = replace_in(&right, &pats.crlf, &none_rep);
        proof {
            assert(none_rep@ =~= Seq::<char>::empty());
        }
        v
    } else {
        right
    };
    if chars_eq(&kind, &pats.version_k) {
        let vlen = value.len();
        let vt: Vec<char> = if vlen > 0 && value[0] == '+' {
            sub_chars(&value, 1, vlen)
        } else {
            sub_chars(&value, 0, vlen)
        };
        proof {
            if value@.len() > 0 && value@[0] == '+' {
                assert(value@.subrange(1, value@.len() as int) =~= value@.drop_first());
            } else {
                assert(value@.subrange(0, value@.len() as int) =~= value@);
            }
            assert(vt@ == version_text(value@));
        }
        return exec_version(&mut st.ast, &vt, pats);
    }
    if name.len() == 0 || value.len() == 0 {
        return None;
    }
    if chars_eq(&kind, &pats.local_k) {
        let name_s = chars_to_string(&name);
        let value_s = chars_to_string(&value);
        st.options.insert(name_s, value_s);
        return None;
    }
    if chars_eq(&kind, &pats.global_k) {
        let name_s = chars_to_string(&name);
        let value_s = chars_to_string(&value);
        st.ast.globals.insert(name_s, value_s);
        return None;
    }
    if chars_eq(&kind, &pats.var_k) {
        let name_s = chars_to_string(&name);
        let value_s = chars_to_string(&value);
        st.ast.vars.insert(name_s, value_s);
        return None;
    }
    if chars_eq(&kind, &pats.sub_k) {
        let name_s = chars_to_string(&name);
        let value_s = chars_to_string(&value);
        st.ast.subs.insert(name_s, value_s);
        return None;
    }
    if chars_eq(&kind, &pats.person_k) {
        let name_s = chars_to_string(&name);
        let value_s = chars_to_string(&value);
        st.ast.person.insert(name_s, value_s);
        return None;
    }
    if is_array {
        let name_s = chars_to_string(&name);
        let words = array_values(&value, pats);
        st.ast.arrays.insert(name_s, words);
        return None;
    }
    None
}


/// Applies a `>` label line, mirroring `label_step`.
fn exec_label(st: &mut ParserState, rest: &Vec<char>, pats: &Pats)
    requires
        old(st).wf(),
        pats.wf(),
    ensures
        final(st).wf(),
        final(st)@ == label_step(old(st)@, rest@),
{
    let fields = split_ws_in(rest);
    let ghost fv = fields.deep_view();
    if fields.len() == 0 {
        return ;
    }
    proof {
        assert(fields@[0]@ == fv[0]);
    }
    let is_begin = chars_eq(&fields[0], &pats.begin_k);
    let name: Vec<char> = if is_begin {
        str_to_chars("__begin__")
    } else if fields.len() >= 2 {
        proof {
            assert(fields@[1]@ == fv[1]);
        }
        sub_chars(&fields[1], 0, fields[1].len())
    } else {
        Vec::new()
    };
    proof {
        if !is_begin && fields@.len() >= 2 {
            assert(fields@[1]@.subrange(0, fields@[1]@.len() as int) =~= fv[1]);
        }
        if !is_begin && fields@.len() < 2 {
            assert(name@ =~= Seq::<char>::empty());
        }
    }
    let is_topic = is_begin || chars_eq(&fields[0], &pats.topic_k);
    if is_topic {
        flush_cur(st);
        let name_s = chars_to_string(&name);
        st.ast.init_topic(&name_s);
        let mut t = match st.ast.topics.take(name_s.as_str()) {
            Some(t) => t,
            None => {
                proof {
                    assert(false);
                }
                Topic::empty()
            },
        };
        let ghost ast2 = (AstV {
            topics: st.ast.topics@.insert(name@, t.deep_view()),
            ..st.ast@
        });
        let ghost t_target = relations_fold(t.deep_view(), name@, fv, 2, Seq::empty());
        let nf = fields.len();
        let mut k: usize = 2;
        let mut mode: u8 = 0;
        let ghost mut mode_seq = Seq::<char>::empty();
        proof {
            reveal_strlit("includes");
            reveal_strlit("inherits");
            assert("includes"@.len() == 8);
            assert("inherits"@.len() == 8);
        }
        while k < nf
            invariant
                pats.wf(),
                fv == fields.deep_view(),
                nf == fields@.len(),
                2 <= k <= nf || (nf < 2 && k == 2),
                mode == 0 || mode == 1 || mode == 2,
                mode_seq == (if mode == 1 {
                    "includes"@
                } else if mode == 2 {
                    "inherits"@
                } else {
                    Seq::<char>::empty()
                }),
                mode == 0 ==> mode_seq != "includes"@ && mode_seq != "inherits"@,
                relations_fold(t.deep_view(), name@, fv, k as int, mode_seq) == t_target,
            decreases nf - k,
        {
            proof {
                reveal_strlit("includes");
                reveal_strlit("inherits");
                assert("includes"@.len() == 8);
                assert("inherits"@.len() == 8);
                assert(fields@[k as int]@ == fv[k as int]);
            }
            let ghost t0 = t.deep_view();
            let ghost m0 = mode_seq;
            if chars_eq(&fields[k], &pats.includes_k) {
                mode = 1;
                proof {
                    mode_seq = "includes"@;
                    assert(fv[k as int] == "includes"@);
                    assert(relations_fold(t.deep_view(), name@, fv, k as int, m0)
                        == relations_fold(t.deep_view(), name@, fv, k + 1, fv[k as int]));
                }
            } else if chars_eq(&fields[k], &pats.inherits_k) {
                mode = 2;
                proof {
                    mode_seq = "inherits"@;
                    assert(fv[k as int] == "inherits"@);
                    assert(relations_fold(t.deep_view(), name@, fv, k as int, m0)
                        == relations_fold(t.deep_view(), name@, fv, k + 1, fv[k as int]));
                }
            } else if chars_eq(&fields[k], &name) {
                proof {
                    assert(fv[k as int] != "includes"@ && fv[k as int] != "inherits"@);
                    assert(fv[k as int] == name@);
                    assert(relations_fold(t.deep_view(), name@, fv, k as int, m0)
                        == relations_fold(t.deep_view(), name@, fv, k + 1, m0));
                }
            } else if mode == 1 {
                let f_s = chars_to_string(&fields[k]);
                t.set_includes(f_s);
                proof {
                    assert(t.deep_view() =~~= (TopicV {
                        includes: t0.includes.insert(fv[k as int]),
                        ..t0
                    }));
                    assert(fv[k as int] != "includes"@ && fv[k as int] != "inherits"@);
                    assert(fv[k as int] != name@);
                    assert(relations_fold(t0, name@, fv, k as int, m0) == relations_fold(
                        t.deep_view(),
                        name@,
                        fv,
                        k + 1,
                        m0,
                    ));
                }
            } else if mode == 2 {
                let f_s = chars_to_string(&fields[k]);
                t.set_inherits(f_s);
                proof {
                    assert(t.deep_view() =~~= (TopicV {
                        inherits: t0.inherits.insert(fv[k as int]),
                        ..t0
                    }));
                    assert(fv[k as int] != "includes"@ && fv[k as int] != "inherits"@);
                    assert(fv[k as int] != name@);
                    reveal_strlit("includes");
                    reveal_strlit("inherits");
                    assert("includes"@[2] == 'c');
                    assert("inherits"@[2] == 'h');
                    assert("includes"@ != "inherits"@);
                    assert(m0 != "includes"@);
                    assert(relations_fold(t0, name@, fv, k as int, m0) == relations_fold(
                        t.deep_view(),
                        name@,
                        fv,
                        k + 1,
                        m0,
                    ));
                }
            } else {
                proof {
                    assert(fv[k as int] != "includes"@ && fv[k as int] != "inherits"@);
                    assert(fv[k as int] != name@);
                    assert(m0 != "includes"@ && m0 != "inherits"@);
                    assert(relations_fold(t.deep_view(), name@, fv, k as int, m0)
                        == relations_fold(t.deep_view(), name@, fv, k + 1, m0));
                }
            }
            k += 1;
        }
        let topic_s = name_s.clone();
        st.ast.topics.insert(name_s, t);
        st.topic = topic_s;
        proof {
            if mode == 0 {
                assert(mode_seq != "includes"@ && mode_seq != "inherits"@);
            }
            assert(st@ =~~= label_step(old(st)@, rest@));
        }
    } else if chars_eq(&fields[0], &pats.object_k) {
        let lang: Vec<char> = if fields.len() >= 3 {
            proof {
                assert(fields@[2]@ == fv[2]);
            }
            lower_in(&fields[2])
        } else {
            let none_src: Vec<char> = Vec::new();
            let l = lower_in(&none_src);
            proof {
                assert(none_src@ =~= Seq::<char>::empty());
                assert(l@ =~= lower_spec(Seq::<char>::empty()));
            }
            l
        };
        st.in_object = true;
        st.obj_name = name;
        st.obj_lang = lang;
        st.obj_buf = Vec::new();
        proof {
            assert(st.obj_buf.deep_view() =~~= Seq::<Seq<char>>::empty());
            assert(st@ =~~= label_step(old(st)@, rest@));
        }
    } else {
        proof {
            assert(st@ =~~= label_step(old(st)@, rest@));
        }
    }
}


/// Applies the line at position `i` to the state, mirroring
/// `line_step`; a fatal definition error is returned to the caller.
#[verifier::rlimit(30)]
fn exec_line(st: &mut ParserState, lines: &Vec<Vec<char>>, i: usize, pats: &Pats) -> (r: Option<
    ParseFail,
>)
    requires
        old(st).wf(),
        pats.wf(),
        i < lines@.len(),
    ensures
        final(st).wf(),
        match line_step(lines.deep_view(), i as int, old(st)@) {
            LineStep::Keep(st2) => r is None && final(st)@ == st2,
            LineStep::Fatal(k) => r == Some(k),
        },
{
    let nn = lines.len();
    let ghost lv = lines.deep_view();
    let ghost l = trim_spec(lv[i as int]);
    proof {
        assert(nn == lines@.len());
        assert(lines@[i as int]@ == lv[i as int]);
    }
    let line = trim_chars(&lines[i]);
    if line.len() == 0 {
        return None;
    }
    if st.in_object {
        if contains_in(&line, &pats.close_obj_sp) || contains_in(&line, &pats.close_obj) {
            if st.obj_name.len() > 0 {
                if st.obj_lang.len() > 0 {
                    let name_s = chars_to_string(&st.obj_name);
                    let lang_s = chars_to_string(&st.obj_lang);
                    let code = crate::ast::clone_strings(&st.obj_buf);
                    let obj = Object::new(name_s.as_str(), lang_s.as_str(), code);
                    st.ast.objects.insert(name_s, obj);
                }
                st.in_object = false;
            }
            proof {
                assert(line_step(lv, i as int, old(st)@) matches LineStep::Keep(st2) && st@
                    =~~= st2);
            }
            return None;
        } else {
            st.obj_buf.push(chars_to_string(&line));
            proof {
                assert(st.obj_buf.deep_view() =~~= old(st).obj_buf.deep_view().push(l));
                assert(line_step(lv, i as int, old(st)@) matches LineStep::Keep(st2) && st@
                    =~~= st2);
            }
            return None;
        }
    }
    if begins_with(&line, &pats.slash2) {
        return None;
    }
    if begins_with(&line, &pats.copen) {
        if contains_in(&line, &pats.cclose) {
            return None;
        }
        st.in_comment = true;
        proof {
            assert(line_step(lv, i as int, old(st)@) matches LineStep::Keep(st2) && st@ =~~= st2);
        }
        return None;
    }
    if contains_in(&line, &pats.cclose) {
        st.in_comment = false;
        proof {
            assert(line_step(lv, i as int, old(st)@) matches LineStep::Keep(st2) && st@ =~~= st2);
        }
        return None;
    }
    if st.in_comment {
        return None;
    }
    if line.len() < 2 {
        return None;
    }
    let cmd = line[0];
    let tail = sub_chars(&line, 1, line.len());
    let rest0 = trim_chars(&tail);
    proof {
        assert(tail@ =~= l.skip(1));
    }
    let rest: Vec<char> = match find_in(&rest0, &pats.inline_c) {
        Some(k) => {
            proof {
                crate::text::lemma_find_sub_props(rest0@, " // "@);
                assert(crate::text::matches_at(rest0@, " // "@, k as int));
            }
            sub_chars(&rest0, 0, k)
        },
        None => rest0,
    };
    if cmd == '!' {
        let cont = collect_cont(lines, i + 1, pats);
        let mut dline = rest;
        push_all(&mut dline, &cont);
        let r = exec_def(st, &dline, pats);
        proof {
            match def_step(old(st)@.ast, old(st)@.options, dline@) {
                DefStep::Fail(k) => {
                    assert(line_step(lv, i as int, old(st)@) == LineStep::Fatal(k));
                },
                DefStep::Keep(a2, o2) => {
                    assert(line_step(lv, i as int, old(st)@) matches LineStep::Keep(st2) && st@
                        =~~= st2);
                },
            }
        }
        return r;
    }
    if cmd == '>' {
        exec_label(st, &rest, pats);
        proof {
            assert(line_step(lv, i as int, old(st)@) matches LineStep::Keep(st2) && st@ =~~= st2);
        }
        return None;
    }
    if cmd == '<' {
        if chars_eq(&rest, &pats.begin_k) || chars_eq(&rest, &pats.topic_k) {
            flush_cur(st);
            st.topic = "random".to_owned();
        }
        proof {
            assert(line_step(lv, i as int, old(st)@) matches LineStep::Keep(st2) && st@ =~~= st2);
        }
        return None;
    }
    if cmd == '+' {
        flush_cur(st);
        let pat_s = chars_to_string(&rest);
        st.cur = Trigger::new(pat_s.as_str());
        proof {
            assert(line_step(lv, i as int, old(st)@) matches LineStep::Keep(st2) && st@ =~~= st2);
        }
        return None;
    }
    if cmd == '%' {
        st.cur.previous = chars_to_string(&rest);
        proof {
            assert(st.cur.deep_view() =~~= (TriggerV { previous: rest@, ..old(st)@.cur }));
            assert(line_step(lv, i as int, old(st)@) matches LineStep::Keep(st2) && st@ =~~= st2);
        }
        return None;
    }
    if cmd == '-' {
        st.cur.reply.push(chars_to_string(&rest));
        proof {
            assert(st.cur.reply.deep_view() =~~= old(st)@.cur.reply.push(rest@));
            assert(st.cur.deep_view() =~~= (TriggerV {
                reply: old(st)@.cur.reply.push(rest@),
                ..old(st)@.cur
            }));
            assert(line_step(lv, i as int, old(st)@) matches LineStep::Keep(st2) && st@ =~~= st2);
        }
        return None;
    }
    if cmd == '*' {
        st.cur.condition.push(chars_to_string(&rest));
        proof {
            assert(st.cur.condition.deep_view() =~~= old(st)@.cur.condition.push(rest@));
            assert(st.cur.deep_view() =~~= (TriggerV {
                condition: old(st)@.cur.condition.push(rest@),
                ..old(st)@.cur
            }));
            assert(line_step(lv, i as int, old(st)@) matches LineStep::Keep(st2) && st@ =~~= st2);
        }
        return None;
    }
    if cmd == '@' {
        st.cur.redirect = chars_to_string(&rest);
        proof {
            assert(st.cur.deep_view() =~~= (TriggerV { redirect: rest@, ..old(st)@.cur }));
            assert(line_step(lv, i as int, old(st)@) matches LineStep::Keep(st2) && st@ =~~= st2);
        }
        return None;
    }
    None
}

/// The document parser.
pub struct Parser {}

impl Parser {
    pub fn new() -> Self {
        Parser {}
    }

    /// Parses one document into a rule tree.  `filename` is kept for
    /// interface compatibility; diagnostics do not use it here.
    ///
    /// The contract ties the result to `parse_doc`: on success the
    /// returned tree is exactly the fold of the document's lines
    /// through the state machine, and on failure the error carries the
    /// message of the fatal condition the fold reached.
    #[allow(unused_variables)]
    pub fn parse(&self, filename: &str, contents: String) -> (r: Result<AST, ParseError>)
        ensures
            match r {
                Ok(ast) => ast.wf() && parse_doc(contents@) == POutcome::Success(ast@)
                    && no_self_relations(ast@),
                Err(e) => parse_doc(contents@) matches POutcome::Fail(k) && e@ == fail_message(k),
            },
    {
        let pats = Pats::new();
        let chars = str_to_chars(contents.as_str());
        let lines = split_in(&chars, &pats.newline);
        let ghost lv = lines.deep_view();
        proof {
            assert(chars@ == contents@);
            assert(lv == split_spec(contents@, "\n"@));
        }
        let topic0 = "random".to_owned();
        let mut ast0 = AST::new();
        ast0.init_topic(&topic0);
        let mut options0: StrMap<String> = StrMap::new();
        options0.insert("concat".to_owned(), "none".to_owned());
        let mut st = ParserState {
            ast: ast0,
            topic: topic0,
            cur: Trigger::new(""),
            in_comment: false,
            in_object: false,
            obj_name: Vec::new(),
            obj_lang: Vec::new(),
            obj_buf: Vec::new(),
            options: options0,
        };
        proof {
            reveal_strlit("");
            assert(st.cur.deep_view().trigger =~= empty_trigger().trigger);
            assert(st.cur.deep_view() =~~= empty_trigger());
            assert(st.obj_buf.deep_view() =~~= Seq::<Seq<char>>::empty());
            assert(st.obj_name@ =~= Seq::<char>::empty());
            assert(st.obj_lang@ =~= Seq::<char>::empty());
            assert(st@.ast =~~= init_state().ast);
            assert(st@.options =~~= init_state().options);
            assert(st@ =~~= init_state());
        }
        let n = lines.len();
        let mut i: usize = 0;
        while i < n
            invariant
                pats.wf(),
                st.wf(),
                i <= n,
                n == lines@.len(),
                lv == lines.deep_view(),
                lv == split_spec(contents@, "\n"@),
                parse_from(lv, i as int, st@) == parse_from(lv, 0, init_state()),
            decreases n - i,
        {
            let ghost st0 = st@;
            match exec_line(&mut st, &lines, i, &pats) {
                None => {
                    proof {
                        assert(parse_from(lv, i as int, st0) == parse_from(lv, i + 1, st@));
                    }
                    i += 1;
                },
                Some(k) => {
                    proof {
                        assert(parse_from(lv, i as int, st0) == POutcome::Fail(k));
                        assert(parse_doc(contents@) == POutcome::Fail(k));
                    }
                    let msg = match k {
                        ParseFail::BadVersion => "Didn't parse version string; was it a properly formatted number?",
                        ParseFail::VersionTooNew => "This RiveScript document declares a `! version` number higher than we support",
                    };
                    return Err(ParseError::new(msg));
                },
            }
        }
        let ghost st_end = st@;
        flush_cur(&mut st);
        proof {
            assert(parse_from(lv, n as int, st_end) == POutcome::Success(
                flush_trigger(st_end.ast, st_end.topic, st_end.cur),
            ));
            assert(st.ast@ == flush_trigger(st_end.ast, st_end.topic, st_end.cur));
            lemma_parse_no_self_relations(contents@);
        }
        Ok(st.ast)
    }
}


proof fn lemma_relations_fold_no_self(
    t: TopicV,
    name: Seq<char>,
    fields: Seq<Seq<char>>,
    i: int,
    mode: Seq<char>,
)
    requires
        !t.includes.contains(name),
        !t.inherits.contains(name),
    ensures
        !relations_fold(t, name, fields, i, mode).includes.contains(name),
        !relations_fold(t, name, fields, i, mode).inherits.contains(name),
    decreases fields.len() - i,
{
    if i < 0 || i >= fields.len() {
    } else {
        let f = fields[i];
        if f == "includes"@ || f == "inherits"@ {
            lemma_relations_fold_no_self(t, name, fields, i + 1, f);
        } else if f == name {
            lemma_relations_fold_no_self(t, name, fields, i + 1, mode);
        } else if mode == "includes"@ {
            lemma_relations_fold_no_self(
                TopicV { includes: t.includes.insert(f), ..t },
                name,
                fields,
                i + 1,
                mode,
            );
        } else if mode == "inherits"@ {
            lemma_relations_fold_no_self(
                TopicV { inherits: t.inherits.insert(f), ..t },
                name,
                fields,
                i + 1,
                mode,
            );
        } else {
            lemma_relations_fold_no_self(t, name, fields, i + 1, mode);
        }
    }
}

proof fn lemma_flush_no_self(ast: AstV, topic: Seq<char>, cur: TriggerV)
    requires
        no_self_relations(ast),
    ensures
        no_self_relations(flush_trigger(ast, topic, cur)),
{
    let a2 = flush_trigger(ast, topic, cur);
    assert forall|k: Seq<char>| #[trigger] a2.topics.contains_key(k) implies !a2.topics[
        k
    ].includes.contains(k) && !a2.topics[k].inherits.contains(k) by {
        if cur.trigger.len() > 0 && ast.topics.contains_key(topic) {
            if k == topic {
                assert(a2.topics[k].includes == ast.topics[topic].includes);
                assert(a2.topics[k].inherits == ast.topics[topic].inherits);
            } else {
                assert(a2.topics[k] == ast.topics[k]);
            }
        }
    }
}

proof fn lemma_label_step_no_self(st: PState, rest: Seq<char>)
    requires
        no_self_relations(st.ast),
    ensures
        no_self_relations(label_step(st, rest).ast),
{
    let fields = split_ws_spec(rest);
    if fields.len() == 0 {
    } else {
        let kind0 = fields[0];
        let kind = if kind0 == "begin"@ {
            "topic"@
        } else {
            kind0
        };
        let name = if kind0 == "begin"@ {
            "__begin__"@
        } else if fields.len() >= 2 {
            fields[1]
        } else {
            Seq::empty()
        };
        if kind == "topic"@ {
            let ast1 = flush_trigger(st.ast, st.topic, st.cur);
            lemma_flush_no_self(st.ast, st.topic, st.cur);
            let ast2 = if ast1.topics.contains_key(name) {
                ast1
            } else {
                AstV { topics: ast1.topics.insert(name, empty_topic()), ..ast1 }
            };
            assert(no_self_relations(ast2)) by {
                assert forall|k: Seq<char>| #[trigger] ast2.topics.contains_key(k) implies
                    !ast2.topics[k].includes.contains(k) && !ast2.topics[k].inherits.contains(
                    k,
                ) by {
                    if !ast1.topics.contains_key(k) {
                        assert(ast2.topics[k] == empty_topic());
                    } else {
                        assert(ast2.topics[k] == ast1.topics[k]);
                    }
                }
            }
            let t0 = ast2.topics[name];
            lemma_relations_fold_no_self(t0, name, fields, 2, Seq::empty());
            let t1 = relations_fold(t0, name, fields, 2, Seq::empty());
            let ast3 = AstV { topics: ast2.topics.insert(name, t1), ..ast2 };
            assert forall|k: Seq<char>| #[trigger] ast3.topics.contains_key(k) implies !ast3.topics[
                k
            ].includes.contains(k) && !ast3.topics[k].inherits.contains(k) by {
                if k != name {
                    assert(ast3.topics[k] == ast2.topics[k]);
                }
            }
        }
    }
}

proof fn lemma_line_step_no_self(lines: Seq<Seq<char>>, i: int, st: PState)
    requires
        no_self_relations(st.ast),
    ensures
        line_step(lines, i, st) matches LineStep::Keep(st2) ==> no_self_relations(st2.ast),
{
    let line = trim_spec(lines[i]);
    if line.len() == 0 {
    } else if st.in_object {
        if contains_sub(line, "< object"@) || contains_sub(line, "<object"@) {
            if st.obj_name.len() > 0 && st.obj_lang.len() > 0 {
                match line_step(lines, i, st) {
                    LineStep::Keep(st2) => {
                        assert(st2.ast.topics == st.ast.topics);
                    },
                    LineStep::Fatal(_) => {},
                }
            }
        }
    } else if matches_prefix(line, "//"@) || matches_prefix(line, "/*"@) || contains_sub(
        line,
        "*/"@,
    ) || st.in_comment || line.len() < 2 {
    } else {
        let cmd = line[0];
        let rest0 = trim_spec(line.skip(1));
        let ic = find_sub(rest0, " // "@);
        let rest = if ic >= 0 {
            rest0.subrange(0, ic)
        } else {
            rest0
        };
        if cmd == '!' {
            match def_step(st.ast, st.options, rest + cont_collect(lines, i + 1)) {
                DefStep::Keep(a2, o2) => {
                    assert(a2.topics == st.ast.topics);
                },
                DefStep::Fail(_) => {},
            }
        } else if cmd == '>' {
            lemma_label_step_no_self(st, rest);
        } else if cmd == '<' || cmd == '+' {
            lemma_flush_no_self(st.ast, st.topic, st.cur);
        }
    }
}

proof fn lemma_parse_from_no_self(lines: Seq<Seq<char>>, i: int, st: PState)
    requires
        no_self_relations(st.ast),
    ensures
        parse_from(lines, i, st) matches POutcome::Success(a) ==> no_self_relations(a),
    decreases lines.len() - i,
{
    if i < 0 || i >= lines.len() {
        lemma_flush_no_self(st.ast, st.topic, st.cur);
    } else {
        lemma_line_step_no_self(lines, i, st);
        match line_step(lines, i, st) {
            LineStep::Keep(st2) => {
                lemma_parse_from_no_self(lines, i + 1, st2);
            },
            LineStep::Fatal(_) => {},
        }
    }
}

/// Law: a parsed tree keeps the relation invariant.  Whatever the
/// document, every topic of a successfully parsed tree is free of the
/// length-one cycle: it never includes or inherits itself.
pub proof fn lemma_parse_no_self_relations(text: Seq<char>)
    ensures
        parse_doc(text) matches POutcome::Success(ast) ==> no_self_relations(ast),
{
    let st0 = init_state();
    assert(no_self_relations(st0.ast)) by {
        assert forall|k: Seq<char>| #[trigger] st0.ast.topics.contains_key(k) implies !st0.ast.topics[
            k
        ].includes.contains(k) && !st0.ast.topics[k].inherits.contains(k) by {
            assert(st0.ast.topics[k] == empty_topic());
        }
    }
    lemma_parse_from_no_self(split_spec(text, "\n"@), 0, st0);
}

/// The map a scalar definition kind writes to.
pub open spec fn kind_map(ast: AstV, kind: Seq<char>) -> Map<Seq<char>, Seq<char>> {
    if kind == "global"@ {
        ast.globals
    } else if kind == "var"@ {
        ast.vars
    } else if kind == "sub"@ {
        ast.subs
    } else {
        ast.person
    }
}

/// A name or value plain enough that nothing else on the line can
/// interfere: no whitespace inside a name, no line break, nothing that
/// reads as a comment marker, separator or soft line break.
pub open spec fn plain_name(name: Seq<char>) -> bool {
    &&& name.len() > 0
    &&& forall|i: int|
        0 <= i < name.len() ==> !crate::text::is_space_char(name[i]) && name[i] != '=' && name[i]
            != '/'
}

pub open spec fn plain_value(value: Seq<char>) -> bool {
    &&& value.len() > 0
    &&& !crate::text::is_space_char(value[0])
    &&& !crate::text::is_space_char(value.last())
    &&& forall|i: int| 0 <= i < value.len() ==> value[i] != '\n' && value[i] != '/'
    &&& !contains_sub(value, "<crlf>"@)
}

/// Law: definitions round-trip.  For every well-formed scalar
/// definition line `! kind name = value` with kind one of `global`,
/// `var`, `sub` or `person`, parsing the line yields a tree whose
/// corresponding map holds exactly `name` mapped to `value`.
///
/// The law is stated for a document of exactly this line: in a longer
/// document a later definition of the same name overwrites it, by the
/// last-write-wins rule that `def_step` gives each scalar map.
#[verifier::rlimit(100)]
pub proof fn lemma_definition_round_trip(kind: Seq<char>, name: Seq<char>, value: Seq<char>)
    requires
        kind == "global"@ || kind == "var"@ || kind == "sub"@ || kind == "person"@,
        plain_name(name),
        plain_value(value),
    ensures
        ({
            let doc = "! "@ + kind + " "@ + name + " = "@ + value;
            &&& parse_doc(doc) matches POutcome::Success(ast) && kind_map(ast, kind).contains_key(
                name,
            ) && kind_map(ast, kind)[name] == value
        }),
{
    reveal_strlit("! ");
    reveal_strlit(" ");
    reveal_strlit(" = ");
    reveal_strlit("=");
    reveal_strlit("\n");
    reveal_strlit("//");
    reveal_strlit("/*");
    reveal_strlit("*/");
    reveal_strlit(" // ");
    reveal_strlit("global");
    reveal_strlit("var");
    reveal_strlit("sub");
    reveal_strlit("person");
    reveal_strlit("version");
    reveal_strlit("local");
    reveal_strlit("array");
    reveal_strlit("<crlf>");
    let doc = "! "@ + kind + " "@ + name + " = "@ + value;
    let k = kind.len() as int;
    let m = name.len() as int;
    let v = value.len() as int;
    assert(doc.len() == k + m + v + 6);
    // the shape of the line, character by character
    assert(kind.len() <= 6);
    assert forall|q: int| 0 <= q < k implies kind[q] != '/' && kind[q] != '\n' && kind[q] != '='
        && !crate::text::is_space_char(kind[q]) by {
        if kind == "global"@ {
            assert(kind[q] == "global"@[q]);
        } else if kind == "var"@ {
            assert(kind[q] == "var"@[q]);
        } else if kind == "sub"@ {
            assert(kind[q] == "sub"@[q]);
        } else {
            assert(kind[q] == "person"@[q]);
        }
    }
    assert(doc[0] == '!');
    assert(doc[1] == ' ');
    assert(doc[2 + k] == ' ');
    assert(doc[3 + k + m] == ' ');
    assert(doc[4 + k + m] == '=');
    assert(doc[5 + k + m] == ' ');
    assert forall|i: int| 2 <= i < 2 + k implies doc[i] == kind[i - 2] by {}
    assert forall|i: int| 3 + k <= i < 3 + k + m implies doc[i] == name[i - 3 - k] by {}
    assert forall|i: int| 6 + k + m <= i < doc.len() implies doc[i] == value[i - 6 - k - m] by {}
    assert forall|i: int| 0 <= i < doc.len() implies doc[i] != '/' && doc[i] != '\n' by {}
    // one line only
    crate::text::lemma_no_char_no_sub(doc, "\n"@, 0);
    let lines = split_spec(doc, "\n"@);
    assert(lines =~= seq![doc]);
    // the whole line survives trimming
    crate::text::lemma_trim_of_clean(doc);
    let st0 = init_state();
    // not a comment, long enough, and the command is '!'
    assert(!matches_prefix(doc, "//"@)) by {
        if matches_prefix(doc, "//"@) {
            assert(doc.subrange(0, 2)[1] == "//"@[1]);
        }
    }
    assert(!matches_prefix(doc, "/*"@)) by {
        if matches_prefix(doc, "/*"@) {
            assert(doc.subrange(0, 2)[0] == "/*"@[0]);
        }
    }
    crate::text::lemma_no_char_no_sub(doc, "*/"@, 1);
    // the rest of the line after the command character
    let rest_core = kind + " "@ + name + " = "@ + value;
    assert(doc.skip(1).len() == doc.len() - 1);
    assert(doc.skip(1)[0] == ' ');
    crate::text::lemma_trim_start_range(doc.skip(1), 1);
    assert(doc.skip(1).subrange(1, doc.skip(1).len() as int) =~= rest_core);
    crate::text::lemma_trim_end_range(rest_core, rest_core.len() as int);
    assert(rest_core.subrange(0, rest_core.len() as int) =~= rest_core);
    assert(trim_spec(doc.skip(1)) == rest_core);
    // no inline comment on the line
    crate::text::lemma_no_char_no_sub(rest_core, " // "@, 1);
    // no continuation follows
    assert(cont_collect(lines, 1) == Seq::<char>::empty());
    assert(rest_core + Seq::<char>::empty() =~= rest_core);
    // where the separator '=' sits
    assert forall|q: int| 0 <= q < 2 + k + m implies rest_core[q] != '=' by {}
    crate::text::lemma_single_char_find(rest_core, "="@, 2 + k + m);
    let left_raw = rest_core.subrange(0, 2 + k + m);
    assert(left_raw =~= kind + " "@ + name + " "@);
    // left side: trailing blank trimmed away
    crate::text::lemma_trim_start_range(left_raw, 0);
    assert(left_raw.subrange(0, left_raw.len() as int) =~= left_raw);
    crate::text::lemma_trim_end_range(left_raw, 1 + k + m);
    let left = kind + " "@ + name;
    assert(left_raw.subrange(0, 1 + k + m) =~= left);
    assert(trim_spec(left_raw) == left);
    // right side: the blank after '=' trimmed away
    let right_raw = rest_core.skip(3 + k + m);
    assert(right_raw.len() == v + 1);
    assert(right_raw[0] == ' ');
    assert forall|q: int| 1 <= q < right_raw.len() implies right_raw[q] == value[q - 1] by {}
    crate::text::lemma_trim_start_range(right_raw, 1);
    assert(right_raw.subrange(1, right_raw.len() as int) =~= value);
    crate::text::lemma_trim_end_range(value, v);
    assert(value.subrange(0, v) =~= value);
    assert(trim_spec(right_raw) == value);
    // the first blank inside the left side separates kind from name
    assert forall|q: int| 0 <= q < k implies left[q] != ' ' by {}
    assert(left[k] == ' ');
    crate::text::lemma_single_char_find(left, " "@, k);
    assert(left.subrange(0, k) =~= kind);
    crate::text::lemma_trim_of_clean(kind);
    assert(left.skip(k + 1) =~= name);
    crate::text::lemma_trim_of_clean(name);
    // the value holds no soft line break, so nothing is replaced
    assert(kind != "array"@);
    crate::text::lemma_replace_no_match(value, "<crlf>"@, Seq::<char>::empty());
    // the definition is none of the special kinds
    assert(kind != "version"@ && kind != "local"@);
    // so the step inserts into exactly one scalar map
    let stepped = line_step(lines, 0, st0);
    assert(def_step(st0.ast, st0.options, rest_core) == DefStep::Keep(
        AstV { globals: st0.ast.globals.insert(name, value), ..st0.ast },
        st0.options,
    ) || kind != "global"@);
    match def_step(st0.ast, st0.options, rest_core) {
        DefStep::Keep(a2, o2) => {
            assert(kind_map(a2, kind) == kind_map(st0.ast, kind).insert(name, value));
            assert(stepped matches LineStep::Keep(st1) && st1.ast == a2 && st1.cur
                == empty_trigger() && st1.topic == st0.topic);
            match stepped {
                LineStep::Keep(st1) => {
                    assert(parse_from(lines, 0, st0) == parse_from(lines, 1, st1));
                    assert(parse_from(lines, 1, st1) == POutcome::Success(
                        flush_trigger(st1.ast, st1.topic, st1.cur),
                    ));
                    assert(flush_trigger(st1.ast, st1.topic, st1.cur) == st1.ast);
                    assert(parse_doc(doc) == POutcome::Success(st1.ast));
                },
                LineStep::Fatal(_) => {
                    assert(false);
                },
            }
        },
        DefStep::Fail(_) => {
            assert(false);
        },
    }
}

} // verus!
