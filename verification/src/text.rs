//! Character-level text utilities.
//!
//! RiveScript documents are processed line by line as sequences of
//! characters.  Every executable helper here is specified against a spec
//! function over `Seq<char>`, so the parser's contract can describe each
//! transformation exactly.

use vstd::prelude::*;

verus! {

/// The characters treated as whitespace when trimming and splitting:
/// the ASCII blank, tab and line-break controls.
pub open spec fn is_space_char(c: char) -> bool {
    c == ' ' || c == '\t' || c == '\n' || c == '\r' || c == '\u{b}' || c == '\u{c}'
}

pub(crate) fn is_space(c: char) -> (r: bool)
    ensures
        r == is_space_char(c),
{
    c == ' ' || c == '\t' || c == '\n' || c == '\r' || c == '\u{b}' || c == '\u{c}'
}

/// `s` with its leading whitespace removed.
pub open spec fn trim_start_spec(s: Seq<char>) -> Seq<char>
    decreases s.len(),
{
    if s.len() > 0 && is_space_char(s[0]) {
        trim_start_spec(s.drop_first())
    } else {
        s
    }
}

/// `s` with its trailing whitespace removed.
pub open spec fn trim_end_spec(s: Seq<char>) -> Seq<char>
    decreases s.len(),
{
    if s.len() > 0 && is_space_char(s.last()) {
        trim_end_spec(s.drop_last())
    } else {
        s
    }
}

/// `s` with whitespace removed from both ends.
pub open spec fn trim_spec(s: Seq<char>) -> Seq<char> {
    trim_end_spec(trim_start_spec(s))
}

pub proof fn lemma_trim_start_range(s: Seq<char>, a: int)
    requires
        0 <= a <= s.len(),
        forall|k: int| 0 <= k < a ==> is_space_char(s[k]),
        a == s.len() || !is_space_char(s[a]),
    ensures
        trim_start_spec(s) == s.subrange(a, s.len() as int),
    decreases a,
{
    if a == 0 {
        assert(s.subrange(0, s.len() as int) =~= s);
    } else {
        lemma_trim_start_range(s.drop_first(), a - 1);
        assert(s.drop_first().subrange(a - 1, s.drop_first().len() as int) =~= s.subrange(
            a,
            s.len() as int,
        ));
    }
}

pub proof fn lemma_trim_end_range(s: Seq<char>, b: int)
    requires
        0 <= b <= s.len(),
        forall|k: int| b <= k < s.len() ==> is_space_char(s[k]),
        b == 0 || !is_space_char(s[b - 1]),
    ensures
        trim_end_spec(s) == s.subrange(0, b),
    decreases s.len(),
{
    if b == s.len() {
        if s.len() > 0 && is_space_char(s.last()) {
            assert(false);
        }
        assert(s.subrange(0, s.len() as int) =~= s);
    } else {
        assert(is_space_char(s.last()));
        lemma_trim_end_range(s.drop_last(), b);
        assert(s.drop_last().subrange(0, b) =~= s.subrange(0, b));
    }
}

/// Whitespace-free sequences are their own trim.
pub proof fn lemma_trim_of_clean(s: Seq<char>)
    requires
        s.len() == 0 || (!is_space_char(s[0]) && !is_space_char(s.last())),
    ensures
        trim_spec(s) == s,
{
    lemma_trim_start_range(s, 0);
    assert(s.subrange(0, s.len() as int) =~= s);
    lemma_trim_end_range(s, s.len() as int);
}

pub(crate) fn trim_chars(s: &Vec<char>) -> (r: Vec<char>)
    ensures
        r@ == trim_spec(s@),
{
    let n = s.len();
    let mut a: usize = 0;
    while a < n && is_space(s[a])
        invariant
            n == s@.len(),
            a <= n,
            forall|k: int| 0 <= k < a ==> is_space_char(s@[k]),
        decreases n - a,
    {
        a += 1;
    }
    let mut b: usize = n;
    while b > a && is_space(s[b - 1])
        invariant
            n == s@.len(),
            a <= b <= n,
            forall|k: int| b <= k < n ==> is_space_char(s@[k]),
        decreases b,
    {
        b -= 1;
    }
    let mut r: Vec<char> = Vec::new();
    let mut i: usize = a;
    while i < b
        invariant
            n == s@.len(),
            a <= i <= b <= n,
            r@ == s@.subrange(a as int, i as int),
        decreases b - i,
    {
        r.push(s[i]);
        assert(r@ =~= s@.subrange(a as int, i + 1 as int));
        i += 1;
    }
    proof {
        let t = s@.subrange(a as int, n as int);
        lemma_trim_start_range(s@, a as int);
        lemma_trim_end_range(t, b - a);
        assert(t.subrange(0, b - a) =~= s@.subrange(a as int, b as int));
        assert(r@ =~= s@.subrange(a as int, b as int));
    }
    r
}

/// `pat` occurs in `s` starting at position `i`.
pub open spec fn matches_at(s: Seq<char>, pat: Seq<char>, i: int) -> bool {
    0 <= i && i + pat.len() <= s.len() && s.subrange(i, i + pat.len() as int) == pat
}

/// `pat` occurs somewhere in `s`.
pub open spec fn contains_sub(s: Seq<char>, pat: Seq<char>) -> bool {
    exists|i: int| matches_at(s, pat, i)
}

/// Position of the leftmost occurrence of `pat` in `s` at or after `i`,
/// or -1 when there is none.
pub open spec fn find_sub_from(s: Seq<char>, pat: Seq<char>, i: int) -> int
    decreases s.len() - i,
{
    if i + pat.len() > s.len() || i < 0 {
        -1
    } else if pat.len() == 0 {
        i
    } else if matches_at(s, pat, i) {
        i
    } else {
        find_sub_from(s, pat, i + 1)
    }
}

/// Position of the leftmost occurrence of `pat` in `s`, or -1.
pub open spec fn find_sub(s: Seq<char>, pat: Seq<char>) -> int {
    find_sub_from(s, pat, 0)
}

pub proof fn lemma_find_sub_from_props(s: Seq<char>, pat: Seq<char>, i: int)
    requires
        0 <= i,
    ensures
        -1 <= find_sub_from(s, pat, i),
        find_sub_from(s, pat, i) == -1 ==> forall|j: int| i <= j ==> !matches_at(s, pat, j),
        find_sub_from(s, pat, i) >= 0 ==> i <= find_sub_from(s, pat, i) && matches_at(
            s,
            pat,
            find_sub_from(s, pat, i),
        ) && forall|j: int| i <= j < find_sub_from(s, pat, i) ==> !matches_at(s, pat, j),
    decreases s.len() - i,
{
    if i + pat.len() > s.len() {
        assert(forall|j: int| i <= j ==> !matches_at(s, pat, j));
    } else if pat.len() == 0 {
        assert(s.subrange(i, i + pat.len() as int) =~= pat);
        assert(matches_at(s, pat, i));
    } else if matches_at(s, pat, i) {
    } else {
        lemma_find_sub_from_props(s, pat, i + 1);
    }
}

pub proof fn lemma_find_sub_props(s: Seq<char>, pat: Seq<char>)
    ensures
        -1 <= find_sub(s, pat),
        find_sub(s, pat) == -1 <==> !contains_sub(s, pat),
        find_sub(s, pat) >= 0 ==> matches_at(s, pat, find_sub(s, pat)) && forall|j: int|
            0 <= j < find_sub(s, pat) ==> !matches_at(s, pat, j),
{
    lemma_find_sub_from_props(s, pat, 0);
    if find_sub(s, pat) == -1 {
        assert forall|j: int| !matches_at(s, pat, j) by {
            if j >= 0 {
                assert(!matches_at(s, pat, j));
            }
        }
        assert(!contains_sub(s, pat));
    } else {
        assert(matches_at(s, pat, find_sub(s, pat)));
        assert(contains_sub(s, pat));
    }
}

/// The leftmost match is at `k` exactly when `k` matches and nothing
/// before it does.
pub proof fn lemma_find_sub_is(s: Seq<char>, pat: Seq<char>, k: int)
    requires
        matches_at(s, pat, k),
        forall|j: int| 0 <= j < k ==> !matches_at(s, pat, j),
    ensures
        find_sub(s, pat) == k,
{
    lemma_find_sub_props(s, pat);
    let r = find_sub(s, pat);
    if r == -1 {
        assert(!contains_sub(s, pat));
        assert(contains_sub(s, pat));
    } else if r < k {
        assert(!matches_at(s, pat, r));
    } else if r > k {
        assert(!matches_at(s, pat, k));
    }
}

pub(crate) fn begins_with(s: &Vec<char>, pat: &Vec<char>) -> (r: bool)
    ensures
        r == matches_at(s@, pat@, 0),
{
    let m = pat.len();
    if m > s.len() {
        return false;
    }
    let mut i: usize = 0;
    while i < m
        invariant
            m == pat@.len() <= s@.len(),
            i <= m,
            forall|k: int| 0 <= k < i ==> s@[k] == pat@[k],
        decreases m - i,
    {
        if s[i] != pat[i] {
            assert(s@.subrange(0, m as int)[i as int] != pat@[i as int]);
            return false;
        }
        i += 1;
    }
    assert(s@.subrange(0, m as int) =~= pat@);
    true
}

pub(crate) fn match_here(s: &Vec<char>, pat: &Vec<char>, at: usize) -> (r: bool)
    requires
        at + pat@.len() <= s@.len(),
    ensures
        r == matches_at(s@, pat@, at as int),
{
    let n = s.len();
    let m = pat.len();
    let mut i: usize = 0;
    while i < m
        invariant
            n == s@.len(),
            m == pat@.len(),
            at + m <= n,
            i <= m,
            forall|k: int| 0 <= k < i ==> s@[at + k] == pat@[k],
        decreases m - i,
    {
        if s[at + i] != pat[i] {
            assert(s@.subrange(at as int, at + m as int)[i as int] != pat@[i as int]);
            return false;
        }
        i += 1;
    }
    assert(s@.subrange(at as int, at + m as int) =~= pat@);
    true
}

pub(crate) fn find_in(s: &Vec<char>, pat: &Vec<char>) -> (r: Option<usize>)
    ensures
        match r {
            Some(k) => find_sub(s@, pat@) == k as int,
            None => find_sub(s@, pat@) == -1,
        },
{
    let m = pat.len();
    if m == 0 {
        proof {
            assert(s@.subrange(0, 0) =~= pat@);
            lemma_find_sub_is(s@, pat@, 0);
        }
        return Some(0);
    }
    if m > s.len() {
        proof {
            lemma_find_sub_from_props(s@, pat@, 0);
            if find_sub(s@, pat@) >= 0 {
                assert(matches_at(s@, pat@, find_sub(s@, pat@)));
            }
        }
        return None;
    }
    let bound = s.len() - m;
    let mut i: usize = 0;
    while i <= bound
        invariant
            1 <= m == pat@.len(),
            s@.len() <= usize::MAX,
            bound == s@.len() - m,
            i <= bound + 1,
            forall|j: int| 0 <= j < i ==> !matches_at(s@, pat@, j),
        decreases bound + 1 - i,
    {
        if match_here(s, pat, i) {
            proof {
                lemma_find_sub_is(s@, pat@, i as int);
            }
            return Some(i);
        }
        i += 1;
    }
    proof {
        lemma_find_sub_from_props(s@, pat@, 0);
        if find_sub(s@, pat@) >= 0 {
            let k = find_sub(s@, pat@);
            assert(matches_at(s@, pat@, k));
            assert(k > bound);
            assert(k + pat@.len() > s@.len());
        }
    }
    None
}

pub(crate) fn contains_in(s: &Vec<char>, pat: &Vec<char>) -> (r: bool)
    ensures
        r == contains_sub(s@, pat@),
{
    let f = find_in(s, pat);
    proof {
        lemma_find_sub_props(s@, pat@);
    }
    f.is_some()
}

/// Copy of `s[a..b]`.
pub(crate) fn sub_chars(s: &Vec<char>, a: usize, b: usize) -> (r: Vec<char>)
    requires
        a <= b <= s@.len(),
    ensures
        r@ == s@.subrange(a as int, b as int),
{
    let mut r: Vec<char> = Vec::new();
    let mut i: usize = a;
    while i < b
        invariant
            a <= i <= b <= s@.len(),
            r@ == s@.subrange(a as int, i as int),
        decreases b - i,
    {
        r.push(s[i]);
        assert(r@ =~= s@.subrange(a as int, i + 1 as int));
        i += 1;
    }
    r
}

pub(crate) fn push_all(dst: &mut Vec<char>, src: &Vec<char>)
    ensures
        final(dst)@ == old(dst)@ + src@,
{
    let mut i: usize = 0;
    while i < src.len()
        invariant
            i <= src@.len(),
            dst@ == old(dst)@ + src@.subrange(0, i as int),
        decreases src@.len() - i,
    {
        dst.push(src[i]);
        assert(dst@ =~= old(dst)@ + src@.subrange(0, i + 1 as int));
        i += 1;
    }
    assert(dst@ =~= old(dst)@ + src@);
}

/// Relies on `String: FromIterator<char>`: collecting characters yields
/// the string made of exactly those characters in order.
#[verifier::external_body]
pub(crate) fn chars_to_string(v: &Vec<char>) -> (s: String)
    ensures
        s@ == v@,
{
    v.iter().collect()
}

pub(crate) fn str_to_chars(s: &str) -> (v: Vec<char>)
    ensures
        v@ == s@,
{
    let n = s.unicode_len();
    let mut v: Vec<char> = Vec::new();
    let mut i: usize = 0;
    while i < n
        invariant
            n == s@.len(),
            i <= n,
            v@ == s@.subrange(0, i as int),
        decreases n - i,
    {
        v.push(s.get_char(i));
        assert(v@ =~= s@.subrange(0, i + 1 as int));
        i += 1;
    }
    assert(v@ =~= s@);
    v
}


/// `s` with every non-overlapping occurrence of `pat` (scanning left to
/// right) replaced by `rep`.
pub open spec fn replace_spec(s: Seq<char>, pat: Seq<char>, rep: Seq<char>) -> Seq<char>
    decreases s.len(),
{
    if s.len() == 0 {
        s
    } else if pat.len() > 0 && matches_at(s, pat, 0) {
        rep + replace_spec(s.skip(pat.len() as int), pat, rep)
    } else {
        seq![s[0]] + replace_spec(s.skip(1), pat, rep)
    }
}

/// Replacing a pattern that does not occur changes nothing.
pub proof fn lemma_replace_no_match(s: Seq<char>, pat: Seq<char>, rep: Seq<char>)
    requires
        pat.len() > 0,
        !contains_sub(s, pat),
    ensures
        replace_spec(s, pat, rep) == s,
    decreases s.len(),
{
    if s.len() == 0 {
    } else {
        assert(!matches_at(s, pat, 0));
        assert forall|j: int| !matches_at(s.skip(1), pat, j) by {
            if matches_at(s.skip(1), pat, j) {
                assert(s.subrange(j + 1, j + 1 + pat.len() as int) =~= s.skip(1).subrange(
                    j,
                    j + pat.len() as int,
                ));
                assert(matches_at(s, pat, j + 1));
            }
        }
        lemma_replace_no_match(s.skip(1), pat, rep);
        assert(seq![s[0]] + s.skip(1) =~= s);
    }
}

pub(crate) fn replace_in(s: &Vec<char>, pat: &Vec<char>, rep: &Vec<char>) -> (r: Vec<char>)
    requires
        pat@.len() > 0,
    ensures
        r@ == replace_spec(s@, pat@, rep@),
{
    let n = s.len();
    let m = pat.len();
    let mut r: Vec<char> = Vec::new();
    let mut i: usize = 0;
    proof {
        assert(s@.skip(0) =~= s@);
        assert(r@ + replace_spec(s@, pat@, rep@) =~= replace_spec(s@, pat@, rep@));
    }
    while i < n
        invariant
            n == s@.len(),
            1 <= m == pat@.len(),
            i <= n,
            replace_spec(s@, pat@, rep@) == r@ + replace_spec(s@.skip(i as int), pat@, rep@),
        decreases n - i,
    {
        let ghost t = s@.skip(i as int);
        let ghost r0 = r@;
        if m <= n - i && match_here(s, pat, i) {
            push_all(&mut r, rep);
            proof {
                assert(t.subrange(0, m as int) =~= s@.subrange(i as int, i + m as int));
                assert(matches_at(t, pat@, 0));
                assert(t.skip(m as int) =~= s@.skip(i + m));
                assert(replace_spec(t, pat@, rep@) == rep@ + replace_spec(
                    s@.skip(i + m),
                    pat@,
                    rep@,
                ));
                assert(r0 + (rep@ + replace_spec(s@.skip(i + m), pat@, rep@)) =~= (r0 + rep@)
                    + replace_spec(s@.skip(i + m), pat@, rep@));
            }
            i += m;
        } else {
            proof {
                if i + m <= n {
                    assert(t.subrange(0, m as int) =~= s@.subrange(i as int, i + m as int));
                    assert(!matches_at(t, pat@, 0));
                } else {
                    assert(t.len() < m);
                }
                assert(replace_spec(t, pat@, rep@) == seq![t[0]] + replace_spec(
                    t.skip(1),
                    pat@,
                    rep@,
                ));
                assert(t.skip(1) =~= s@.skip(i + 1));
                assert(r0 + (seq![t[0]] + replace_spec(s@.skip(i + 1), pat@, rep@)) =~= r0.push(
                    s@[i as int],
                ) + replace_spec(s@.skip(i + 1), pat@, rep@));
            }
            r.push(s[i]);
            i += 1;
        }
    }
    proof {
        assert(s@.skip(n as int) =~= Seq::<char>::empty());
        assert(r@ + Seq::<char>::empty() =~= r@);
    }
    r
}

/// `s` split on occurrences of `pat`; empty pieces are kept, and a
/// sequence with no occurrence yields the single piece `s`.
pub open spec fn split_spec(s: Seq<char>, pat: Seq<char>) -> Seq<Seq<char>>
    decreases s.len(),
    via split_spec_dec
{
    let k = find_sub(s, pat);
    if pat.len() == 0 || k < 0 {
        seq![s]
    } else {
        seq![s.subrange(0, k)] + split_spec(s.skip(k + pat.len()), pat)
    }
}

#[via_fn]
proof fn split_spec_dec(s: Seq<char>, pat: Seq<char>) {
    if pat.len() > 0 {
        lemma_find_sub_props(s, pat);
    }
}

pub(crate) fn split_in(s: &Vec<char>, pat: &Vec<char>) -> (r: Vec<Vec<char>>)
    requires
        pat@.len() > 0,
    ensures
        r.deep_view() == split_spec(s@, pat@),
{
    let m = pat.len();
    let mut rest: Vec<char> = sub_chars(s, 0, s.len());
    let mut out: Vec<Vec<char>> = Vec::new();
    let mut going = true;
    proof {
        assert(s@.subrange(0, s@.len() as int) =~= s@);
        assert(out.deep_view() + split_spec(rest@, pat@) =~~= split_spec(s@, pat@));
    }
    while going
        invariant
            1 <= m == pat@.len(),
            going ==> split_spec(s@, pat@) == out.deep_view() + split_spec(rest@, pat@),
            !going ==> out.deep_view() == split_spec(s@, pat@),
        decreases rest@.len() + (if going { 1int } else { 0int }),
    {
        let ghost out0 = out.deep_view();
        let ghost rest0 = rest@;
        match find_in(&rest, pat) {
            Some(k) => {
                proof {
                    lemma_find_sub_props(rest@, pat@);
                }
                proof {
                    assert(matches_at(rest@, pat@, k as int));
                }
                let rl = rest.len();
                let piece = sub_chars(&rest, 0, k);
                out.push(piece);
                let next = sub_chars(&rest, k + m, rl);
                rest = next;
                proof {
                    assert(out.deep_view() =~~= out0.push(rest0.subrange(0, k as int)));
                    assert(rest@ =~= rest0.skip(k + m));
                    assert(split_spec(rest0, pat@) == seq![rest0.subrange(0, k as int)]
                        + split_spec(rest0.skip(k + m), pat@));
                    assert(out0 + (seq![rest0.subrange(0, k as int)] + split_spec(
                        rest0.skip(k + m),
                        pat@,
                    )) =~~= out0.push(rest0.subrange(0, k as int)) + split_spec(
                        rest0.skip(k + m),
                        pat@,
                    ));
                }
            },
            None => {
                out.push(rest);
                rest = Vec::new();
                going = false;
                proof {
                    assert(split_spec(rest0, pat@) == seq![rest0]);
                    assert(out.deep_view() =~~= out0.push(rest0));
                    assert(out0 + seq![rest0] =~~= out0.push(rest0));
                }
            },
        }
    }
    out
}

/// End of the run of non-whitespace characters that starts at `i`.
pub open spec fn word_end_at(s: Seq<char>, i: int) -> int
    decreases s.len() - i,
{
    if 0 <= i < s.len() && !is_space_char(s[i]) {
        word_end_at(s, i + 1)
    } else {
        i
    }
}

pub proof fn lemma_word_end(s: Seq<char>, i: int)
    requires
        0 <= i <= s.len(),
    ensures
        i <= word_end_at(s, i) <= s.len(),
        forall|k: int| i <= k < word_end_at(s, i) ==> !is_space_char(s[k]),
        word_end_at(s, i) == s.len() || is_space_char(s[word_end_at(s, i)]),
    decreases s.len() - i,
{
    if 0 <= i < s.len() && !is_space_char(s[i]) {
        lemma_word_end(s, i + 1);
    }
}

proof fn lemma_word_end_is(s: Seq<char>, i: int, j: int)
    requires
        0 <= i <= j <= s.len(),
        forall|k: int| i <= k < j ==> !is_space_char(s[k]),
        j == s.len() || is_space_char(s[j]),
    ensures
        word_end_at(s, i) == j,
    decreases j - i,
{
    if i < j {
        lemma_word_end_is(s, i + 1, j);
    }
}

/// The whitespace-separated words of `s` from position `i` on; empty
/// words never occur.
pub open spec fn split_ws_from(s: Seq<char>, i: int) -> Seq<Seq<char>>
    decreases s.len() - i,
    via split_ws_dec
{
    if i < 0 || i >= s.len() {
        Seq::empty()
    } else if is_space_char(s[i]) {
        split_ws_from(s, i + 1)
    } else {
        seq![s.subrange(i, word_end_at(s, i))] + split_ws_from(s, word_end_at(s, i))
    }
}

#[via_fn]
proof fn split_ws_dec(s: Seq<char>, i: int) {
    if 0 <= i < s.len() && !is_space_char(s[i]) {
        lemma_word_end(s, i + 1);
    }
}

/// The whitespace-separated words of `s`.
pub open spec fn split_ws_spec(s: Seq<char>) -> Seq<Seq<char>> {
    split_ws_from(s, 0)
}

pub(crate) fn split_ws_in(s: &Vec<char>) -> (r: Vec<Vec<char>>)
    ensures
        r.deep_view() == split_ws_spec(s@),
{
    let n = s.len();
    let mut out: Vec<Vec<char>> = Vec::new();
    let mut i: usize = 0;
    proof {
        assert(out.deep_view() + split_ws_from(s@, 0) =~~= split_ws_from(s@, 0));
    }
    while i < n
        invariant
            n == s@.len(),
            i <= n,
            split_ws_spec(s@) == out.deep_view() + split_ws_from(s@, i as int),
        decreases n - i,
    {
        if is_space(s[i]) {
            i += 1;
        } else {
            let ghost out0 = out.deep_view();
            let mut j: usize = i;
            while j < n && !is_space(s[j])
                invariant
                    n == s@.len(),
                    i <= j <= n,
                    forall|k: int| i <= k < j ==> !is_space_char(s@[k]),
                decreases n - j,
            {
                j += 1;
            }
            proof {
                lemma_word_end_is(s@, i as int, j as int);
            }
            let w = sub_chars(s, i, j);
            out.push(w);
            proof {
                assert(out.deep_view() =~~= out0.push(s@.subrange(i as int, j as int)));
                assert(out0 + (seq![s@.subrange(i as int, j as int)] + split_ws_from(
                    s@,
                    j as int,
                )) =~~= out0.push(s@.subrange(i as int, j as int)) + split_ws_from(s@, j as int));
            }
            i = j;
        }
    }
    proof {
        assert(out.deep_view() + split_ws_from(s@, n as int) =~~= out.deep_view());
    }
    out
}

/// ASCII-only case folding: the letters A through Z map to their
/// lower-case forms, every other character is unchanged.
pub open spec fn lower_char_spec(c: char) -> char {
    match c {
        'A' => 'a',
        'B' => 'b',
        'C' => 'c',
        'D' => 'd',
        'E' => 'e',
        'F' => 'f',
        'G' => 'g',
        'H' => 'h',
        'I' => 'i',
        'J' => 'j',
        'K' => 'k',
        'L' => 'l',
        'M' => 'm',
        'N' => 'n',
        'O' => 'o',
        'P' => 'p',
        'Q' => 'q',
        'R' => 'r',
        'S' => 's',
        'T' => 't',
        'U' => 'u',
        'V' => 'v',
        'W' => 'w',
        'X' => 'x',
        'Y' => 'y',
        'Z' => 'z',
        _ => c,
    }
}

/// `s` with each character case-folded by `lower_char_spec`.
pub open spec fn lower_spec(s: Seq<char>) -> Seq<char> {
    s.map_values(|c: char| lower_char_spec(c))
}

fn lower_char(c: char) -> (r: char)
    ensures
        r == lower_char_spec(c),
{
    match c {
        'A' => 'a',
        'B' => 'b',
        'C' => 'c',
        'D' => 'd',
        'E' => 'e',
        'F' => 'f',
        'G' => 'g',
        'H' => 'h',
        'I' => 'i',
        'J' => 'j',
        'K' => 'k',
        'L' => 'l',
        'M' => 'm',
        'N' => 'n',
        'O' => 'o',
        'P' => 'p',
        'Q' => 'q',
        'R' => 'r',
        'S' => 's',
        'T' => 't',
        'U' => 'u',
        'V' => 'v',
        'W' => 'w',
        'X' => 'x',
        'Y' => 'y',
        'Z' => 'z',
        _ => c,
    }
}

pub(crate) fn lower_in(s: &Vec<char>) -> (r: Vec<char>)
    ensures
        r@ == lower_spec(s@),
{
    let n = s.len();
    let mut r: Vec<char> = Vec::new();
    let mut i: usize = 0;
    while i < n
        invariant
            n == s@.len(),
            i <= n,
            r@ =~= s@.subrange(0, i as int).map_values(|c: char| lower_char_spec(c)),
        decreases n - i,
    {
        r.push(lower_char(s[i]));
        assert(r@ =~= s@.subrange(0, i + 1 as int).map_values(|c: char| lower_char_spec(c)));
        i += 1;
    }
    assert(s@.subrange(0, n as int) =~= s@);
    r
}

/// A decimal digit.
pub open spec fn is_digit_char(c: char) -> bool {
    c == '0' || c == '1' || c == '2' || c == '3' || c == '4' || c == '5' || c == '6' || c == '7'
        || c == '8' || c == '9'
}

/// Numeric value of a decimal digit; 0 for any other character.
pub open spec fn digit_val(c: char) -> int {
    match c {
        '0' => 0,
        '1' => 1,
        '2' => 2,
        '3' => 3,
        '4' => 4,
        '5' => 5,
        '6' => 6,
        '7' => 7,
        '8' => 8,
        '9' => 9,
        _ => 0,
    }
}

/// Value of a sequence of decimal digits read most significant first.
pub open spec fn digits_val(s: Seq<char>) -> int
    decreases s.len(),
{
    if s.len() == 0 {
        0
    } else {
        digits_val(s.drop_last()) * 10 + digit_val(s.last())
    }
}

pub(crate) fn is_digit(c: char) -> (r: bool)
    ensures
        r == is_digit_char(c),
{
    c == '0' || c == '1' || c == '2' || c == '3' || c == '4' || c == '5' || c == '6' || c == '7'
        || c == '8' || c == '9'
}

fn digit_of(c: char) -> (r: u64)
    ensures
        r == digit_val(c),
        r <= 9,
{
    match c {
        '0' => 0,
        '1' => 1,
        '2' => 2,
        '3' => 3,
        '4' => 4,
        '5' => 5,
        '6' => 6,
        '7' => 7,
        '8' => 8,
        '9' => 9,
        _ => 0,
    }
}

/// Reads a run of decimal digits as a `u64`; `None` when the value
/// does not fit.
pub(crate) fn digits_to_u64(s: &Vec<char>) -> (r: Option<u64>)
    requires
        forall|k: int| 0 <= k < s@.len() ==> is_digit_char(s@[k]),
    ensures
        match r {
            Some(v) => v == digits_val(s@),
            None => digits_val(s@) > u64::MAX,
        },
{
    let n = s.len();
    let mut acc: u64 = 0;
    let mut i: usize = 0;
    while i < n
        invariant
            n == s@.len(),
            i <= n,
            forall|k: int| 0 <= k < s@.len() ==> is_digit_char(s@[k]),
            acc == digits_val(s@.subrange(0, i as int)),
        decreases n - i,
    {
        let d = digit_of(s[i]);
        proof {
            assert(s@.subrange(0, i + 1 as int).drop_last() =~= s@.subrange(0, i as int));
        }
        if acc > (u64::MAX - d) / 10 {
            proof {
                lemma_digits_larger(s@, i as int);
            }
            return None;
        }
        acc = acc * 10 + d;
        i += 1;
    }
    assert(s@.subrange(0, n as int) =~= s@);
    Some(acc)
}

/// Digit strings only grow when extended.
proof fn lemma_digits_larger(s: Seq<char>, i: int)
    requires
        forall|k: int| 0 <= k < s.len() ==> is_digit_char(s[k]),
        0 <= i < s.len(),
        digits_val(s.subrange(0, i)) * 10 + digit_val(s[i]) > u64::MAX,
    ensures
        digits_val(s) > u64::MAX,
    decreases s.len() - i,
{
    assert(s.subrange(0, i + 1).drop_last() =~= s.subrange(0, i));
    assert(digits_val(s.subrange(0, i + 1)) == digits_val(s.subrange(0, i)) * 10 + digit_val(
        s[i],
    ));
    if i + 1 == s.len() {
        assert(s.subrange(0, i + 1) =~= s);
    } else {
        lemma_digits_grow(s, i + 1);
    }
}

/// Appending digits never decreases the value.
proof fn lemma_digits_grow(s: Seq<char>, i: int)
    requires
        forall|k: int| 0 <= k < s.len() ==> is_digit_char(s[k]),
        0 <= i <= s.len(),
    ensures
        digits_val(s) >= digits_val(s.subrange(0, i)),
    decreases s.len() - i,
{
    if i == s.len() {
        assert(s.subrange(0, i) =~= s);
    } else {
        lemma_digits_grow(s, i + 1);
        assert(s.subrange(0, i + 1).drop_last() =~= s.subrange(0, i));
        assert(digits_val(s.subrange(0, i + 1)) == digits_val(s.subrange(0, i)) * 10 + digit_val(
            s[i + 1 - 1],
        ));
        assert(digits_val(s.subrange(0, i)) >= 0) by {
            lemma_digits_nonneg(s.subrange(0, i));
        }
    }
}

proof fn lemma_digits_nonneg(s: Seq<char>)
    ensures
        digit_val(s.last()) >= 0,
        digits_val(s) >= 0 || exists|k: int| 0 <= k < s.len() && !is_digit_char(s[k]),
        (forall|k: int| 0 <= k < s.len() ==> is_digit_char(s[k])) ==> digits_val(s) >= 0,
    decreases s.len(),
{
    if s.len() > 0 {
        lemma_digits_nonneg(s.drop_last());
    }
}


pub(crate) fn str_eq_str(a: &str, b: &str) -> (r: bool)
    ensures
        r == (a@ == b@),
{
    let n = a.unicode_len();
    if n != b.unicode_len() {
        return false;
    }
    let mut i: usize = 0;
    while i < n
        invariant
            n == a@.len() == b@.len(),
            i <= n,
            forall|k: int| 0 <= k < i ==> a@[k] == b@[k],
        decreases n - i,
    {
        if a.get_char(i) != b.get_char(i) {
            return false;
        }
        i += 1;
    }
    assert(a@ =~= b@);
    true
}


pub(crate) fn chars_eq(a: &Vec<char>, b: &Vec<char>) -> (r: bool)
    ensures
        r == (a@ == b@),
{
    let n = a.len();
    if n != b.len() {
        return false;
    }
    let mut i: usize = 0;
    while i < n
        invariant
            n == a@.len() == b@.len(),
            i <= n,
            forall|k: int| 0 <= k < i ==> a@[k] == b@[k],
        decreases n - i,
    {
        if a[i] != b[i] {
            return false;
        }
        i += 1;
    }
    assert(a@ =~= b@);
    true
}


/// A pattern holding a character that `s` lacks cannot occur in `s`.
pub proof fn lemma_no_char_no_sub(s: Seq<char>, pat: Seq<char>, ci: int)
    requires
        0 <= ci < pat.len(),
        forall|i: int| 0 <= i < s.len() ==> s[i] != pat[ci],
    ensures
        find_sub(s, pat) == -1,
        !contains_sub(s, pat),
{
    assert forall|j: int| !matches_at(s, pat, j) by {
        if matches_at(s, pat, j) {
            assert(s.subrange(j, j + pat.len() as int)[ci] == pat[ci]);
            assert(s[j + ci] == pat[ci]);
        }
    }
    lemma_find_sub_props(s, pat);
    if find_sub(s, pat) >= 0 {
        assert(matches_at(s, pat, find_sub(s, pat)));
    }
}

/// For a one-character pattern, the leftmost occurrence is the first
/// position holding that character.
pub proof fn lemma_single_char_find(s: Seq<char>, pat: Seq<char>, pos: int)
    requires
        pat.len() == 1,
        0 <= pos < s.len(),
        s[pos] == pat[0],
        forall|q: int| 0 <= q < pos ==> s[q] != pat[0],
    ensures
        find_sub(s, pat) == pos,
{
    assert(s.subrange(pos, pos + 1) =~= pat);
    assert(matches_at(s, pat, pos));
    assert forall|q: int| 0 <= q < pos implies !matches_at(s, pat, q) by {
        if matches_at(s, pat, q) {
            assert(s.subrange(q, q + 1)[0] == pat[0]);
            assert(s[q] == pat[0]);
        }
    }
    lemma_find_sub_is(s, pat, pos);
}

} // verus!