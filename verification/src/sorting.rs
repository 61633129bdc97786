//! The trigger sort engine.
//!
//! Each topic's triggers are reordered so that a greedy first-match
//! scan meets the most specific pattern first: explicit weights
//! dominate, then a structural class, then the word count, with the
//! original parse order breaking remaining ties.  The order is stated
//! as `sort_triggers_spec`, the unique arrangement sorted under a
//! strict total order on tagged triggers.

use vstd::prelude::*;

use vstd::relations::{sorted_by, total_ordering};

use crate::ast::{Trigger, TriggerV, AST};
use crate::errors::ParseError;
use crate::strmap::StrMap;
use crate::text::{
    digits_to_u64, digits_val, is_digit, is_digit_char, match_here, matches_at, split_ws_in,
    split_ws_spec, str_to_chars,
};

verus! {

pub open spec fn no_topics_message() -> Seq<char> {
    "sort_triggers: no topics were found. Did you load any RiveScript code?"@
}

// == the pattern weight extractor ==
/// End of the run of decimal digits starting at `j`.
pub open spec fn wdigits_end(s: Seq<char>, j: int) -> int
    decreases s.len() - j,
{
    if 0 <= j < s.len() && is_digit_char(s[j]) {
        wdigits_end(s, j + 1)
    } else {
        j
    }
}

/// A whole `{weight=<digits>}` annotation begins at position `i`.
pub open spec fn wmatch(s: Seq<char>, i: int) -> bool {
    let j = i + "{weight="@.len();
    let k = wdigits_end(s, j);
    matches_at(s, "{weight="@, i) && k > j && k < s.len() && s[k] == '}'
}

/// Position of the leftmost weight annotation, or -1.
pub open spec fn find_wmatch_from(s: Seq<char>, i: int) -> int
    decreases s.len() - i,
{
    if i < 0 || i >= s.len() {
        -1
    } else if wmatch(s, i) {
        i
    } else {
        find_wmatch_from(s, i + 1)
    }
}

/// The explicit weight of a pattern: the number of its first whole
/// `{weight=N}` annotation, or 0 when there is none or the digits
/// overflow the weight type.
pub open spec fn weight_of(s: Seq<char>) -> int {
    let m = find_wmatch_from(s, 0);
    if m < 0 {
        0
    } else {
        let j = m + "{weight="@.len();
        let v = digits_val(s.subrange(j, wdigits_end(s, j)));
        if v > i64::MAX {
            0
        } else {
            v
        }
    }
}

proof fn lemma_wdigits_end_is(s: Seq<char>, j: int, k: int)
    requires
        0 <= j <= k <= s.len(),
        forall|q: int| j <= q < k ==> is_digit_char(s[q]),
        k == s.len() || !is_digit_char(s[k]),
    ensures
        wdigits_end(s, j) == k,
    decreases k - j,
{
    if j < k {
        lemma_wdigits_end_is(s, j + 1, k);
    }
}

proof fn lemma_find_wmatch_props(s: Seq<char>, i: int)
    requires
        0 <= i,
    ensures
        -1 <= find_wmatch_from(s, i),
        find_wmatch_from(s, i) == -1 ==> forall|j: int| i <= j ==> !wmatch(s, j),
        find_wmatch_from(s, i) >= 0 ==> i <= find_wmatch_from(s, i) && wmatch(
            s,
            find_wmatch_from(s, i),
        ) && forall|j: int| i <= j < find_wmatch_from(s, i) ==> !wmatch(s, j),
    decreases s.len() - i,
{
    if i >= s.len() {
        assert forall|j: int| i <= j implies !wmatch(s, j) by {
            if wmatch(s, j) {
                assert(matches_at(s, "{weight="@, j));
            }
        }
    } else if wmatch(s, i) {
    } else {
        lemma_find_wmatch_props(s, i + 1);
    }
}

/// Pulls the explicit `{weight=N}` priority out of a pattern; 0 when
/// the pattern has none or its digits overflow.
pub fn pattern_weight(pattern: &str) -> (r: i64)
    ensures
        r == weight_of(pattern@),
{
    let s = str_to_chars(pattern);
    let tag = str_to_chars("{weight=");
    proof {
        reveal_strlit("{weight=");
    }
    let n = s.len();
    let mut i: usize = 0;
    while i < n
        invariant
            n == s@.len(),
            s@ == pattern@,
            tag@ == "{weight="@,
            tag@.len() == 8,
            i <= n,
            forall|j: int| 0 <= j < i ==> !wmatch(s@, j),
        decreases n - i,
    {
        if 8 <= n - i && match_here(&s, &tag, i) {
            let mut j: usize = i + 8;
            while j < n && is_digit(s[j])
                invariant
                    n == s@.len(),
                    i + 8 <= j <= n,
                    forall|q: int| i + 8 <= q < j ==> is_digit_char(s@[q]),
                decreases n - j,
            {
                j += 1;
            }
            proof {
                lemma_wdigits_end_is(s@, i + 8, j as int);
            }
            if j > i + 8 && j < n && s[j] == '}' {
                proof {
                    assert(wmatch(s@, i as int));
                    lemma_find_wmatch_props(s@, 0);
                    if find_wmatch_from(s@, 0) != i {
                        assert(false);
                    }
                }
                let digits = crate::text::sub_chars(&s, i + 8, j);
                match digits_to_u64(&digits) {
                    Some(v) => {
                        if v <= i64::MAX as u64 {
                            return v as i64;
                        } else {
                            return 0;
                        }
                    },
                    None => {
                        return 0;
                    },
                }
            } else {
                proof {
                    assert(!wmatch(s@, i as int));
                }
            }
        } else {
            proof {
                if i + 8 > n {
                    assert(!matches_at(s@, "{weight="@, i as int));
                }
                assert(!wmatch(s@, i as int));
            }
        }
        i += 1;
    }
    proof {
        lemma_find_wmatch_props(s@, 0);
        if find_wmatch_from(s@, 0) >= 0 {
            assert(wmatch(s@, find_wmatch_from(s@, 0)));
            assert(false);
        }
    }
    0
}

// == structural classification ==
/// `c` occurs in `p`.
pub open spec fn has_char(p: Seq<char>, c: char) -> bool {
    exists|i: int| 0 <= i < p.len() && p[i] == c
}

/// The structural class of a pattern, from most specific (0) to least:
/// exact patterns, optionals `[ ]`, the `_` wildcard mixed with words,
/// the `#` wildcard mixed with words, the `*` wildcard mixed with
/// words, then the bare `#`, `_` and `*` catch-alls.
pub open spec fn pattern_class(p: Seq<char>) -> int {
    if p == "#"@ {
        5
    } else if p == "_"@ {
        6
    } else if p == "*"@ {
        7
    } else if has_char(p, '[') {
        1
    } else if has_char(p, '_') {
        2
    } else if has_char(p, '#') {
        3
    } else if has_char(p, '*') {
        4
    } else {
        0
    }
}

/// Number of whitespace-separated words of a pattern.
pub open spec fn word_count(p: Seq<char>) -> int {
    split_ws_spec(p).len() as int
}

fn has_char_in(p: &Vec<char>, c: char) -> (r: bool)
    ensures
        r == has_char(p@, c),
{
    let n = p.len();
    let mut i: usize = 0;
    while i < n
        invariant
            n == p@.len(),
            i <= n,
            forall|j: int| 0 <= j < i ==> p@[j] != c,
        decreases n - i,
    {
        if p[i] == c {
            return true;
        }
        i += 1;
    }
    false
}

/// Computes the structural class of a pattern.
pub fn pattern_class_of(pattern: &str) -> (r: u8)
    ensures
        r as int == pattern_class(pattern@),
{
    let p = str_to_chars(pattern);
    proof {
        reveal_strlit("#");
        reveal_strlit("_");
        reveal_strlit("*");
    }
    if p.len() == 1 {
        if p[0] == '#' {
            proof {
                assert(p@ =~= "#"@);
            }
            return 5;
        }
        if p[0] == '_' {
            proof {
                assert(p@ =~= "_"@);
            }
            return 6;
        }
        if p[0] == '*' {
            proof {
                assert(p@ =~= "*"@);
            }
            return 7;
        }
    }
    proof {
        assert(p@ != "#"@ && p@ != "_"@ && p@ != "*"@);
    }
    if has_char_in(&p, '[') {
        return 1;
    }
    if has_char_in(&p, '_') {
        return 2;
    }
    if has_char_in(&p, '#') {
        return 3;
    }
    if has_char_in(&p, '*') {
        return 4;
    }
    0
}

/// Computes the word count of a pattern.
pub fn pattern_words(pattern: &str) -> (r: usize)
    ensures
        r as int == word_count(pattern@),
{
    let p = str_to_chars(pattern);
    let words = split_ws_in(&p);
    proof {
        assert(words.deep_view().len() == words@.len());
    }
    words.len()
}

// == the ordering ==
/// `a` ranks strictly before `b` on the three-part key.
pub open spec fn key_before(a: TriggerV, b: TriggerV) -> bool {
    ||| weight_of(a.trigger) > weight_of(b.trigger)
    ||| (weight_of(a.trigger) == weight_of(b.trigger) && pattern_class(a.trigger) < pattern_class(
        b.trigger,
    ))
    ||| (weight_of(a.trigger) == weight_of(b.trigger) && pattern_class(a.trigger) == pattern_class(
        b.trigger,
    ) && word_count(a.trigger) > word_count(b.trigger))
}

/// `a` and `b` share the whole key.
pub open spec fn key_same(a: TriggerV, b: TriggerV) -> bool {
    weight_of(a.trigger) == weight_of(b.trigger) && pattern_class(a.trigger) == pattern_class(
        b.trigger,
    ) && word_count(a.trigger) == word_count(b.trigger)
}

/// The total order on positions of `s`: by key, then by position, so
/// that equal keys keep their original order.
pub open spec fn idx_le(s: Seq<TriggerV>) -> spec_fn(int, int) -> bool {
    |i: int, j: int| key_before(s[i], s[j]) || (!key_before(s[j], s[i]) && i <= j)
}

/// The sorted arrangement of positions.
pub open spec fn sort_perm(s: Seq<TriggerV>) -> Seq<int> {
    Seq::new(s.len(), |i: int| i).sort_by(idx_le(s))
}

/// The sort engine's output: the triggers of `s` in sorted order.
pub open spec fn sort_triggers_spec(s: Seq<TriggerV>) -> Seq<TriggerV> {
    sort_perm(s).map_values(|i: int| s[i])
}

/// `idx_le` is a total order on positions.
pub proof fn lemma_idx_le_total(s: Seq<TriggerV>)
    ensures
        total_ordering(idx_le(s)),
{
    let leq = idx_le(s);
    assert forall|i: int, j: int, k: int|
        #![trigger leq(i, j), leq(j, k)]
        leq(i, j) && leq(j, k) implies leq(i, k) by {
        assert(leq(i, j) && leq(j, k));
    }
    assert forall|i: int, j: int|
        #![trigger leq(i, j), leq(j, i)]
        leq(i, j) && leq(j, i) implies i == j by {
        assert(leq(i, j) && leq(j, i));
    }
    assert forall|i: int, j: int| #[trigger] leq(i, j) || #[trigger] leq(j, i) by {
        if !leq(i, j) {
            assert(leq(j, i));
        }
    }
}


/// One trigger paired with its sort key and original position.
struct SortEntry {
    weight: i64,
    class: u8,
    words: usize,
    idx: usize,
    trig: Trigger,
}

/// The entry's key fields agree with the trigger at its position.
spec fn entry_ok(e: SortEntry, s: Seq<TriggerV>) -> bool {
    &&& (e.idx as int) < s.len()
    &&& e.trig.deep_view() == s[e.idx as int]
    &&& e.weight as int == weight_of(s[e.idx as int].trigger)
    &&& e.class as int == pattern_class(s[e.idx as int].trigger)
    &&& e.words as int == word_count(s[e.idx as int].trigger)
}

/// The original positions of a run of entries.
spec fn idxs_of(es: Seq<SortEntry>) -> Seq<int> {
    es.map_values(|e: SortEntry| e.idx as int)
}

/// Compares two entries under the order `idx_le`.
fn entry_le(a: &SortEntry, b: &SortEntry, Ghost(s): Ghost<Seq<TriggerV>>) -> (r: bool)
    requires
        entry_ok(*a, s),
        entry_ok(*b, s),
    ensures
        r == idx_le(s)(a.idx as int, b.idx as int),
{
    let before_ab = a.weight > b.weight || (a.weight == b.weight && a.class < b.class) || (a.weight
        == b.weight && a.class == b.class && a.words > b.words);
    let before_ba = b.weight > a.weight || (b.weight == a.weight && b.class < a.class) || (b.weight
        == a.weight && b.class == a.class && b.words > a.words);
    let r = before_ab || (!before_ba && a.idx <= b.idx);
    proof {
        assert(before_ab == key_before(s[a.idx as int], s[b.idx as int]));
        assert(before_ba == key_before(s[b.idx as int], s[a.idx as int]));
    }
    r
}

/// Sorts one topic's triggers into optimal matching order: by explicit
/// weight, then structural specificity, then word count, with the
/// original order kept among equals.
pub fn sort_trigger_set(triggers: Vec<Trigger>) -> (r: Vec<Trigger>)
    ensures
        r.deep_view() == sort_triggers_spec(triggers.deep_view()),
{
    broadcast use vstd::seq_lib::group_to_multiset_ensures;
    broadcast use vstd::seq_lib::to_multiset_insert;
    broadcast use vstd::multiset::group_multiset_axioms;

    let ghost s = triggers.deep_view();
    let n = triggers.len();
    let mut rest = triggers;
    let mut entries: Vec<SortEntry> = Vec::new();
    let mut idx: usize = 0;
    while rest.len() > 0
        invariant
            n == s.len(),
            idx == entries@.len(),
            idx + rest@.len() == n,
            rest.deep_view() =~= s.skip(idx as int),
            forall|j: int|
                0 <= j < idx ==> entry_ok(#[trigger] entries@[j], s) && entries@[j].idx == j,
        decreases rest@.len(),
    {
        let ghost rd0 = rest.deep_view();
        let t = rest.remove(0);
        proof {
            assert(t.deep_view() == rd0[0]);
            assert(rd0[0] == s[idx as int]);
            assert(rest.deep_view() =~~= rd0.skip(1));
            assert(rd0.skip(1) =~= s.skip(idx + 1));
        }
        let w = pattern_weight(t.trigger.as_str());
        let c = pattern_class_of(t.trigger.as_str());
        let wc = pattern_words(t.trigger.as_str());
        let e = SortEntry { weight: w, class: c, words: wc, idx, trig: t };
        proof {
            assert(entry_ok(e, s));
        }
        entries.push(e);
        idx += 1;
    }
    proof {
        assert(idx == n);
    }
    let mut out: Vec<SortEntry> = Vec::new();
    let mut pending = entries;
    let mut k: usize = 0;
    proof {
        assert(idxs_of(out@) =~= Seq::<int>::empty());
        assert(Seq::new(0, |i: int| i) =~= Seq::<int>::empty());
        assert(idxs_of(out@).to_multiset() =~= Seq::new(0, |i: int| i).to_multiset());
    }
    while pending.len() > 0
        invariant
            n == s.len(),
            k + pending@.len() == n,
            out@.len() == k,
            forall|j: int|
                0 <= j < pending@.len() ==> entry_ok(#[trigger] pending@[j], s)
                    && pending@[j].idx == k + j,
            forall|j: int| 0 <= j < out@.len() ==> entry_ok(#[trigger] out@[j], s),
            sorted_by(idxs_of(out@), idx_le(s)),
            idxs_of(out@).to_multiset() == Seq::new(k as nat, |i: int| i).to_multiset(),
        decreases pending@.len(),
    {
        let ghost p0 = pending@;
        let e = pending.remove(0);
        proof {
            assert(e == p0[0]);
            assert(entry_ok(e, s));
            assert(e.idx == k);
        }
        let mut pos: usize = 0;
        let olen = out.len();
        while pos < olen && entry_le(&out[pos], &e, Ghost(s))
            invariant
                n == s.len(),
                olen == out@.len(),
                pos <= olen,
                entry_ok(e, s),
                forall|j: int| 0 <= j < out@.len() ==> entry_ok(#[trigger] out@[j], s),
                sorted_by(idxs_of(out@), idx_le(s)),
                forall|j: int|
                    0 <= j < pos ==> #[trigger] idx_le(s)(out@[j].idx as int, e.idx as int),
            decreases olen - pos,
        {
            pos += 1;
        }
        let ghost out0 = out@;
        let ghost leq = idx_le(s);
        proof {
            if pos < out0.len() {
                assert(!leq(out0[pos as int].idx as int, e.idx as int));
                assert(leq(e.idx as int, out0[pos as int].idx as int));
            }
        }
        out.insert(pos, e);
        proof {
            assert(out@ =~= out0.insert(pos as int, e));
            let ni = idxs_of(out@);
            let oi = idxs_of(out0);
            assert(ni =~= oi.insert(pos as int, e.idx as int));
            // the new sequence of positions stays sorted
            assert forall|a: int, b: int| 0 <= a < b < ni.len() implies #[trigger] leq(
                ni[a],
                ni[b],
            ) by {
                if b < pos {
                    assert(leq(oi[a], oi[b]));
                } else if a < pos && b == pos {
                    assert(leq(out0[a].idx as int, e.idx as int));
                } else if a < pos && b > pos {
                    assert(leq(oi[a], oi[b - 1]));
                } else if a == pos && b > pos {
                    assert(leq(e.idx as int, out0[pos as int].idx as int));
                    assert(leq(oi[pos as int], oi[b - 1]) || pos as int == b - 1);
                    assert(leq(e.idx as int, oi[b - 1]));
                } else {
                    assert(a > pos && b > pos);
                    assert(leq(oi[a - 1], oi[b - 1]));
                }
            }
            assert(sorted_by(ni, leq));
            // the multiset grows by exactly the new position
            vstd::seq_lib::to_multiset_insert(oi, pos as int, e.idx as int);
            assert(oi.insert(pos as int, e.idx as int).to_multiset() == oi.to_multiset().insert(
                e.idx as int,
            ));
            assert(ni == oi.insert(pos as int, e.idx as int));
            assert(ni.to_multiset() == oi.to_multiset().insert(e.idx as int));
            assert(Seq::new((k + 1) as nat, |i: int| i) =~= Seq::new(k as nat, |i: int| i).push(
                k as int,
            ));
            Seq::new(k as nat, |i: int| i).to_multiset_ensures();
            assert(Seq::new(k as nat, |i: int| i).push(k as int).to_multiset() =~= Seq::new(
                k as nat,
                |i: int| i,
            ).to_multiset().insert(k as int));
            assert(Seq::new((k + 1) as nat, |i: int| i).to_multiset() =~= oi.to_multiset().insert(
                k as int,
            ));
        }
        k += 1;
    }
    proof {
        lemma_idx_le_total(s);
        let ident = Seq::new(s.len(), |i: int| i);
        ident.lemma_sort_by_ensures(idx_le(s));
        assert(idxs_of(out@).to_multiset() == ident.to_multiset());
        vstd::seq_lib::lemma_sorted_unique(idxs_of(out@), sort_perm(s), idx_le(s));
        assert(idxs_of(out@) == sort_perm(s));
    }
    let ghost fin = out@;
    let mut r: Vec<Trigger> = Vec::new();
    let mut q = out;
    while q.len() > 0
        invariant
            n == s.len(),
            fin.len() == n,
            idxs_of(fin) == sort_perm(s),
            forall|j: int| 0 <= j < fin.len() ==> entry_ok(#[trigger] fin[j], s),
            r@.len() + q@.len() == n,
            q@ =~= fin.skip(r@.len() as int),
            r.deep_view() =~= sort_triggers_spec(s).take(r@.len() as int),
        decreases q@.len(),
    {
        let ghost q0 = q@;
        let ghost r0 = r.deep_view();
        let e = q.remove(0);
        r.push(e.trig);
        proof {
            let done: int = r@.len() as int;
            assert(e == fin[done - 1]);
            assert(q@ =~= fin.skip(done));
            assert(sort_triggers_spec(s).len() == sort_perm(s).len());
            assert(sort_perm(s).len() == idxs_of(fin).len());
            assert(sort_triggers_spec(s)[done - 1] == s[sort_perm(s)[done - 1]]);
            assert(sort_perm(s)[done - 1] == idxs_of(fin)[done - 1]);
            assert(idxs_of(fin)[done - 1] == fin[done - 1].idx as int);
            assert(e.trig.deep_view() == s[fin[done - 1].idx as int]);
            assert(r.deep_view() =~~= sort_triggers_spec(s).take(done));
        }
    }
    proof {
        assert(sort_triggers_spec(s).len() == idxs_of(fin).len());
        assert(r.deep_view() =~~= sort_triggers_spec(s));
        assert(sort_triggers_spec(triggers.deep_view()) == sort_triggers_spec(s));
    }
    r
}


/// Sorts every topic of the tree.  Fails exactly when the tree holds
/// no topics at all, the sign that no document was loaded.
pub fn sort_triggers(brain: &AST) -> (r: Result<StrMap<Vec<Trigger>>, ParseError>)
    requires
        brain.wf(),
    ensures
        match r {
            Ok(m) => {
                &&& m.wf()
                &&& brain@.topics.dom() != Set::<Seq<char>>::empty()
                &&& m@.dom() == brain@.topics.dom()
                &&& forall|k: Seq<char>|
                    brain@.topics.contains_key(k) ==> #[trigger] m@[k] == sort_triggers_spec(
                        brain@.topics[k].triggers,
                    )
            },
            Err(e) => brain@.topics.dom() == Set::<Seq<char>>::empty() && e@
                == no_topics_message(),
        },
{
    let n = brain.topics.len();
    proof {
        brain.topics.lemma_keys();
    }
    if n == 0 {
        proof {
            assert forall|k: Seq<char>| !brain@.topics.dom().contains(k) by {
                if brain@.topics.contains_key(k) {
                    let j = choose|j: int|
                        0 <= j < brain.topics.spec_keys().len() && brain.topics.spec_keys()[j]
                            == k;
                }
            }
            assert(brain@.topics.dom() =~= Set::<Seq<char>>::empty());
        }
        return Err(ParseError::new(
            "sort_triggers: no topics were found. Did you load any RiveScript code?",
        ));
    }
    let ghost keys = brain.topics.spec_keys();
    let mut m: StrMap<Vec<Trigger>> = StrMap::new();
    let mut i: usize = 0;
    while i < n
        invariant
            brain.wf(),
            m.wf(),
            n == brain.topics.spec_keys().len(),
            keys == brain.topics.spec_keys(),
            i <= n,
            forall|a: int, b: int| 0 <= a < b < keys.len() ==> keys[a] != keys[b],
            forall|j: int| 0 <= j < keys.len() ==> brain@.topics.contains_key(#[trigger] keys[j]),
            forall|k: Seq<char>|
                brain@.topics.contains_key(k) ==> exists|j: int|
                    0 <= j < keys.len() && keys[j] == k,
            forall|j: int|
                0 <= j < i ==> m@.contains_key(#[trigger] keys[j]) && m@[keys[j]]
                    == sort_triggers_spec(brain@.topics[keys[j]].triggers),
            forall|k: Seq<char>|
                #[trigger] m@.contains_key(k) ==> exists|j: int| 0 <= j < i && keys[j] == k,
        decreases n - i,
    {
        let key = brain.topics.key_at(i).clone();
        let topic = brain.topics.value_at(i);
        let mut copy: Vec<Trigger> = Vec::new();
        let tn = topic.triggers.len();
        let mut q: usize = 0;
        while q < tn
            invariant
                tn == topic.triggers@.len(),
                q <= tn,
                copy.deep_view() =~= topic.triggers.deep_view().take(q as int),
            decreases tn - q,
        {
            let ghost c0 = copy.deep_view();
            let t = topic.triggers[q].clone();
            proof {
                assert(t.deep_view() == topic.triggers@[q as int].deep_view());
                assert(topic.triggers@[q as int].deep_view() == topic.triggers.deep_view()[q as int]);
            }
            copy.push(t);
            proof {
                let lhs = copy.deep_view();
                let rhs = topic.triggers.deep_view().take(q + 1 as int);
                assert(c0.len() == q as int);
                assert(copy@.len() == q + 1);
                assert(lhs.len() == q + 1);
                assert forall|j: int| 0 <= j < q + 1 implies lhs[j] == rhs[j] by {
                    if j < q {
                        assert(lhs[j] == c0[j]);
                        assert(c0[j] == topic.triggers.deep_view().take(q as int)[j]);
                    } else {
                        assert(copy@[j] == t);
                    }
                }
                assert(lhs =~~= rhs);
            }
            q += 1;
        }
        proof {
            assert(copy.deep_view() =~~= topic.triggers.deep_view());
            assert(topic.deep_view() == brain@.topics[keys[i as int]]);
        }
        let sorted = sort_trigger_set(copy);
        let ghost m0 = m@;
        m.insert(key, sorted);
        proof {
            assert(m@ == m0.insert(keys[i as int], sort_triggers_spec(
                brain@.topics[keys[i as int]].triggers,
            )));
            assert forall|k: Seq<char>| #[trigger] m@.contains_key(k) implies exists|j: int|
                0 <= j < i + 1 && keys[j] == k by {
                if k != keys[i as int] {
                    assert(m0.contains_key(k));
                }
            }
        }
        i += 1;
    }
    proof {
        assert forall|k: Seq<char>| #[trigger]
            m@.contains_key(k) == brain@.topics.contains_key(k) by {
            if m@.contains_key(k) {
                let j = choose|j: int| 0 <= j < i && keys[j] == k;
                assert(brain@.topics.contains_key(keys[j]));
            }
            if brain@.topics.contains_key(k) {
                let j = choose|j: int| 0 <= j < keys.len() && keys[j] == k;
                assert(m@.contains_key(keys[j]));
            }
        }
        assert(m@.dom() =~= brain@.topics.dom());
        assert(brain@.topics.contains_key(keys[0]));
        assert(brain@.topics.dom().contains(keys[0]));
        assert(brain@.topics.dom() != Set::<Seq<char>>::empty());
    }
    Ok(m)
}

/// The sort is idempotent: its output, re-sorted, is unchanged.  Equal
/// keys stay in order, so a second pass finds every position already
/// final.
pub proof fn lemma_sort_idempotent(s: Seq<TriggerV>)
    ensures
        sort_triggers_spec(sort_triggers_spec(s)) == sort_triggers_spec(s),
{
    broadcast use vstd::seq_lib::group_to_multiset_ensures;

    let leq = idx_le(s);
    lemma_idx_le_total(s);
    let ident = Seq::new(s.len(), |i: int| i);
    ident.lemma_sort_by_ensures(leq);
    let perm = sort_perm(s);
    let t = sort_triggers_spec(s);
    assert(t.len() == perm.len());
    // every entry of the permutation is a position of `s`
    assert forall|i: int| 0 <= i < perm.len() implies 0 <= #[trigger] perm[i] < s.len() by {
        assert(perm.to_multiset().contains(perm[i]));
        assert(ident.to_multiset().contains(perm[i]));
        assert(ident.contains(perm[i]));
        let j = choose|j: int| 0 <= j < ident.len() && ident[j] == perm[i];
    }
    // the output is sorted under its own positional order
    let leq_t = idx_le(t);
    let ident_t = Seq::new(t.len(), |i: int| i);
    assert forall|a: int, b: int| 0 <= a < b < ident_t.len() implies #[trigger] leq_t(
        ident_t[a],
        ident_t[b],
    ) by {
        assert(leq(perm[a], perm[b]));
        assert(t[a] == s[perm[a]]);
        assert(t[b] == s[perm[b]]);
        if key_before(s[perm[b]], s[perm[a]]) {
            assert(!leq(perm[a], perm[b]));
        }
    }
    assert(sorted_by(ident_t, leq_t));
    lemma_idx_le_total(t);
    ident_t.lemma_sort_by_ensures(leq_t);
    vstd::seq_lib::lemma_sorted_unique(sort_perm(t), ident_t, leq_t);
    assert(sort_perm(t) == ident_t);
    assert(sort_triggers_spec(t) =~= t);
}


/// Mapping two sequences with equal multisets gives equal multisets.
proof fn lemma_map_multiset<A>(a: Seq<int>, b: Seq<int>, f: spec_fn(int) -> A)
    requires
        a.to_multiset() == b.to_multiset(),
    ensures
        a.map_values(f).to_multiset() == b.map_values(f).to_multiset(),
    decreases a.len(),
{
    broadcast use vstd::seq_lib::group_to_multiset_ensures;
    broadcast use vstd::multiset::group_multiset_axioms;

    if a.len() == 0 {
        assert(b.to_multiset().len() == 0);
        assert(b.len() == 0);
        assert(a.map_values(f) =~= b.map_values(f));
    } else {
        let x = a.last();
        assert(a.to_multiset().contains(x)) by {
            assert(a.contains(x));
        }
        assert(b.to_multiset().contains(x));
        assert(b.contains(x));
        let i = choose|i: int| 0 <= i < b.len() && b[i] == x;
        assert(a.drop_last() =~= a.remove(a.len() - 1));
        assert(a.remove(a.len() - 1).to_multiset() == a.to_multiset().remove(x));
        assert(b.remove(i).to_multiset() == b.to_multiset().remove(x));
        lemma_map_multiset(a.drop_last(), b.remove(i), f);
        assert(a.map_values(f) =~= a.drop_last().map_values(f).push(f(x)));
        assert(a.map_values(f).to_multiset() == a.drop_last().map_values(f).to_multiset().insert(
            f(x),
        ));
        assert(b.remove(i).map_values(f) =~= b.map_values(f).remove(i));
        assert(b.map_values(f).remove(i).to_multiset() == b.map_values(f).to_multiset().remove(
            b.map_values(f)[i],
        ));
        assert(b.map_values(f)[i] == f(x));
        assert(b.map_values(f).to_multiset().contains(f(x))) by {
            assert(b.map_values(f).contains(f(x)));
        }
        assert(b.map_values(f).to_multiset().remove(f(x)).insert(f(x)) =~= b.map_values(
            f,
        ).to_multiset());
        assert(a.map_values(f).to_multiset() =~= b.map_values(f).to_multiset());
    }
}

/// The sort is a permutation: its output holds exactly the triggers it
/// was given, each as often as it occurred.
pub proof fn lemma_sort_permutes(s: Seq<TriggerV>)
    ensures
        sort_triggers_spec(s).to_multiset() == s.to_multiset(),
{
    lemma_idx_le_total(s);
    let ident = Seq::new(s.len(), |i: int| i);
    ident.lemma_sort_by_ensures(idx_le(s));
    let f = |i: int| s[i];
    assert(sort_perm(s).to_multiset() == ident.to_multiset());
    lemma_map_multiset(sort_perm(s), ident, f);
    assert(ident.map_values(f) =~= s);
    assert(sort_perm(s).map_values(f) == sort_triggers_spec(s));
}

} // verus!
