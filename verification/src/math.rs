//! Detection of TeX math delimiters in Markdown text.
use vstd::prelude::*;
use crate::text::{chars_of, contains, find_from_exec, lemma_contains, matches_at, matches_at_exec};

verus! {

/// The number of backslashes that immediately precede position `i` of `s`.
pub open spec fn backslash_run(s: Seq<char>, i: int) -> nat
    decreases i,
{
    if i <= 0 || i > s.len() || s[i - 1] != '\\' {
        0
    } else {
        1 + backslash_run(s, i - 1)
    }
}

/// The character at position `i` is escaped: an odd number of backslashes
/// precede it.
pub open spec fn is_escaped(s: Seq<char>, i: int) -> bool {
    backslash_run(s, i) % 2 == 1
}

/// The number of unescaped occurrences of the non-empty `m` in `s` at or after
/// position `i`, counting occurrences from left to right without overlap.
pub open spec fn unescaped_count(s: Seq<char>, m: Seq<char>, i: nat) -> nat
    decreases s.len() - i,
{
    if m.len() == 0 || i >= s.len() {
        0
    } else if matches_at(s, m, i as int) {
        (if is_escaped(s, i as int) {
            0nat
        } else {
            1nat
        }) + unescaped_count(s, m, i + m.len())
    } else {
        unescaped_count(s, m, i + 1)
    }
}

/// The block-math delimiter `$$`.
pub open spec fn double_dollar() -> Seq<char> {
    seq!['$', '$']
}

/// The opening bracket delimiter `\[`.
pub open spec fn open_bracket() -> Seq<char> {
    seq!['\\', '[']
}

/// The closing bracket delimiter `\]`.
pub open spec fn close_bracket() -> Seq<char> {
    seq!['\\', ']']
}

/// Position `i` holds a `$` that is unescaped and has no `$` next to it.
pub open spec fn is_lone_dollar(s: Seq<char>, i: int) -> bool {
    &&& s[i] == '$'
    &&& !is_escaped(s, i)
    &&& (i == 0 || s[i - 1] != '$')
    &&& (i + 1 >= s.len() || s[i + 1] != '$')
}

/// The number of lone dollars among the first `n` positions of `s`.
pub open spec fn lone_dollar_count(s: Seq<char>, n: int) -> nat
    decreases n,
{
    if n <= 0 {
        0
    } else {
        lone_dollar_count(s, n - 1) + if is_lone_dollar(s, n - 1) {
            1nat
        } else {
            0nat
        }
    }
}

/// `s` holds both `\[` and `\]`.
pub open spec fn has_brackets(s: Seq<char>) -> bool {
    contains(s, open_bracket()) && contains(s, close_bracket())
}

/// `s` holds TeX math: two unescaped `$$`, or both `\[` and `\]`, or two lone `$`.
pub open spec fn has_math(s: Seq<char>) -> bool {
    ||| unescaped_count(s, double_dollar(), 0) >= 2
    ||| has_brackets(s)
    ||| lone_dollar_count(s, s.len() as int) >= 2
}

proof fn lemma_no_dollar_count(s: Seq<char>, i: nat)
    requires
        forall|k: int| 0 <= k < s.len() ==> #[trigger] s[k] != '$',
    ensures
        unescaped_count(s, double_dollar(), i) == 0,
    decreases s.len() - i,
{
    if i < s.len() {
        if matches_at(s, double_dollar(), i as int) {
            assert(s[i as int + 0] == double_dollar()[0]);
        }
        lemma_no_dollar_count(s, i + 1);
    }
}

proof fn lemma_no_dollar_lone(s: Seq<char>, n: int)
    requires
        n <= s.len(),
        forall|k: int| 0 <= k < s.len() ==> #[trigger] s[k] != '$',
    ensures
        lone_dollar_count(s, n) == 0,
    decreases n,
{
    if n > 0 {
        lemma_no_dollar_lone(s, n - 1);
        assert(s[n - 1] != '$');
    }
}

/// Text with no `$` and no backslash has no math in it.
pub proof fn lemma_no_math_without_delimiters(s: Seq<char>)
    requires
        forall|k: int| 0 <= k < s.len() ==> #[trigger] s[k] != '$' && s[k] != '\\',
    ensures
        !has_math(s),
{
    lemma_no_dollar_count(s, 0);
    lemma_no_dollar_lone(s, s.len() as int);
    lemma_contains(s, open_bracket());
    if contains(s, open_bracket()) {
        let j = choose|j: int| matches_at(s, open_bracket(), j);
        assert(s[j + 0] == open_bracket()[0]);
    }
}

proof fn lemma_lone_dollar_count_grows(s: Seq<char>, m: int, n: int)
    requires
        0 <= m <= n,
    ensures
        lone_dollar_count(s, m) <= lone_dollar_count(s, n),
    decreases n - m,
{
    if m < n {
        lemma_lone_dollar_count_grows(s, m, n - 1);
    }
}

/// Inline math between two lone dollars is math whatever it holds: a `$`, a
/// non-empty text with no `$` that does not end in a backslash, and a `$`.
pub proof fn lemma_dollar_pair_is_math(t: Seq<char>)
    requires
        t.len() > 0,
        forall|k: int| 0 <= k < t.len() ==> #[trigger] t[k] != '$',
        t.last() != '\\',
    ensures
        has_math(seq!['$'] + t + seq!['$']),
{
    let s = seq!['$'] + t + seq!['$'];
    let n = t.len() as int;
    assert(s[0] == '$');
    assert(s[1] == t[0]);
    assert(s[n] == t[n - 1]);
    assert(s[n + 1] == '$');
    assert(s.len() == n + 2);
    assert(is_lone_dollar(s, 0));
    assert(backslash_run(s, n + 1) == 0);
    assert(is_lone_dollar(s, n + 1));
    assert(lone_dollar_count(s, 0) == 0);
    assert(lone_dollar_count(s, 1) == 1);
    lemma_lone_dollar_count_grows(s, 1, n + 1);
    assert(lone_dollar_count(s, n + 2) == lone_dollar_count(s, n + 1) + 1);
}

/// Between `i` and `j` no `$` stands, so the count of `$$` from `i` is the
/// count from `j`.
proof fn lemma_unescaped_count_skip(s: Seq<char>, i: nat, j: nat)
    requires
        i <= j <= s.len(),
        forall|k: int| i <= k < j ==> #[trigger] s[k] != '$',
    ensures
        unescaped_count(s, double_dollar(), i) == unescaped_count(s, double_dollar(), j),
    decreases j - i,
{
    if i < j {
        if matches_at(s, double_dollar(), i as int) {
            assert(s[i as int + 0] == double_dollar()[0]);
        }
        lemma_unescaped_count_skip(s, i + 1, j);
    }
}

/// Display math is math whatever it holds: `$$`, a text with no `$` that does
/// not end in a backslash, and `$$`.
pub proof fn lemma_display_math_is_math(t: Seq<char>)
    requires
        forall|k: int| 0 <= k < t.len() ==> #[trigger] t[k] != '$',
        t.len() > 0 ==> t.last() != '\\',
    ensures
        has_math(double_dollar() + t + double_dollar()),
{
    let d = double_dollar();
    let s = d + t + d;
    let n = t.len() as int;
    assert(s.len() == n + 4);
    assert forall|k: int| 2 <= k < n + 2 implies #[trigger] s[k] != '$' by {
        assert(s[k] == t[k - 2]);
    }
    assert(matches_at(s, d, 0)) by {
        assert(s[0int + 0] == d[0]);
        assert(s[0int + 1] == d[1]);
    }
    assert(!is_escaped(s, 0));
    lemma_unescaped_count_skip(s, 2, (n + 2) as nat);
    assert(matches_at(s, d, n + 2)) by {
        assert(s[n + 2 + 0] == d[0]);
        assert(s[n + 2 + 1] == d[1]);
    }
    if n > 0 {
        assert(s[n + 1] == t.last());
    }
    assert(backslash_run(s, n + 2) == 0);
    assert(unescaped_count(s, d, (n + 4) as nat) == 0);
    assert(unescaped_count(s, d, (n + 2) as nat) == 1);
    assert(unescaped_count(s, d, 0) == 1 + unescaped_count(s, d, 2));
}

/// Bracketed display math is math whatever it holds: `\[`, any text, and `\]`.
pub proof fn lemma_bracket_math_is_math(t: Seq<char>)
    ensures
        has_math(open_bracket() + t + close_bracket()),
{
    let s = open_bracket() + t + close_bracket();
    let n = t.len() as int;
    assert(matches_at(s, open_bracket(), 0)) by {
        assert(s[0int + 0] == open_bracket()[0]);
        assert(s[0int + 1] == open_bracket()[1]);
    }
    assert(matches_at(s, close_bracket(), n + 2)) by {
        assert(s[n + 2 + 0] == close_bracket()[0]);
        assert(s[n + 2 + 1] == close_bracket()[1]);
    }
    lemma_contains(s, open_bracket());
    lemma_contains(s, close_bracket());
}

proof fn lemma_lone_dollar_count_escaped(s: Seq<char>, n: int)
    requires
        0 <= n <= s.len(),
        forall|k: int| 0 <= k < s.len() && s[k] == '$' ==> #[trigger] is_escaped(s, k),
    ensures
        lone_dollar_count(s, n) == 0,
    decreases n,
{
    if n > 0 {
        lemma_lone_dollar_count_escaped(s, n - 1);
        if s[n - 1] == '$' {
            assert(is_escaped(s, n - 1));
        }
    }
}

/// Escaped dollars are no math: `\$`, a text with no `$` and no backslash,
/// and `\$`.
pub proof fn lemma_escaped_dollars_are_not_math(t: Seq<char>)
    requires
        forall|k: int| 0 <= k < t.len() ==> #[trigger] t[k] != '$' && t[k] != '\\',
    ensures
        !has_math(seq!['\\', '$'] + t + seq!['\\', '$']),
{
    let e = seq!['\\', '$'];
    let s = e + t + e;
    let n = t.len() as int;
    assert(s.len() == n + 4);
    assert forall|k: int| 2 <= k < n + 2 implies #[trigger] s[k] != '$' && s[k] != '\\' by {
        assert(s[k] == t[k - 2]);
    }
    assert(s[0] == '\\' && s[1] == '$' && s[n + 2] == '\\' && s[n + 3] == '$');
    assert(backslash_run(s, 0) == 0);
    assert(backslash_run(s, 1) == 1);
    if n > 0 {
        assert(s[n + 1] != '\\');
    }
    assert(backslash_run(s, n + 2) == 0);
    assert(backslash_run(s, n + 3) == 1);
    assert forall|k: int| 0 <= k < s.len() && s[k] == '$' implies #[trigger] is_escaped(s, k) by {
        if 2 <= k < n + 2 {
            assert(s[k] != '$');
        }
    }
    lemma_lone_dollar_count_escaped(s, s.len() as int);
    assert forall|k: int| 0 <= k < s.len() - 1 implies !(#[trigger] s[k] == '$' && s[k + 1] == '$')
        by {
        if 2 <= k + 1 < n + 2 {
            assert(s[k + 1] != '$');
        }
    }
    lemma_unescaped_dollars_apart(s, 0);
    lemma_contains(s, open_bracket());
    if contains(s, open_bracket()) {
        let j = choose|j: int| matches_at(s, open_bracket(), j);
        assert(s[j + 0] == open_bracket()[0]);
        assert(s[j + 1] == open_bracket()[1]);
        if 2 <= j + 1 < n + 2 {
            assert(s[j + 1] != '\\');
        }
    }
}

/// Where no two `$` stand side by side, `$$` does not occur.
proof fn lemma_unescaped_dollars_apart(s: Seq<char>, i: nat)
    requires
        forall|k: int| 0 <= k < s.len() - 1 ==> !(#[trigger] s[k] == '$' && s[k + 1] == '$'),
    ensures
        unescaped_count(s, double_dollar(), i) == 0,
    decreases s.len() - i,
{
    if i < s.len() {
        if matches_at(s, double_dollar(), i as int) {
            assert(s[i as int + 0] == double_dollar()[0]);
            assert(s[i as int + 1] == double_dollar()[1]);
            assert(!(s[i as int] == '$' && s[i as int + 1] == '$'));
        }
        lemma_unescaped_dollars_apart(s, i + 1);
    }
}

/// Whether the character at `byte_index` of `source` is escaped by an odd number
/// of backslashes right before it.
pub fn is_escaped_at(source: &Vec<char>, byte_index: usize) -> (b: bool)
    requires
        byte_index <= source.len(),
    ensures
        b == is_escaped(source@, byte_index as int),
{
    let mut slash_count: usize = 0;
    let mut j = byte_index;
    while j > 0 && source[j - 1] == '\\'
        invariant
            j <= byte_index <= source.len(),
            slash_count == byte_index - j,
            slash_count + backslash_run(source@, j as int) == backslash_run(
                source@,
                byte_index as int,
            ),
        decreases j,
    {
        slash_count = slash_count + 1;
        j = j - 1;
    }
    slash_count % 2 == 1
}

/// Whether `delimiter` occurs at least twice in `source` unescaped. The empty
/// delimiter occurs, unescaped, at the start of every text, again and again.
pub fn has_unescaped_pair(source: &Vec<char>, delimiter: &Vec<char>) -> (b: bool)
    ensures
        b == (delimiter.len() == 0 || unescaped_count(source@, delimiter@, 0) >= 2),
{
    if delimiter.len() == 0 {
        return true;
    }
    let mut matches: usize = 0;
    let mut index: usize = 0;
    while index < source.len()
        invariant
            matches < 2,
            delimiter.len() > 0,
            index <= source.len() + delimiter.len(),
            matches + unescaped_count(source@, delimiter@, index as nat) == unescaped_count(
                source@,
                delimiter@,
                0,
            ),
        decreases source.len() + delimiter.len() - index,
    {
        if matches_at_exec(source, delimiter, index) {
            if !is_escaped_at(source, index) {
                matches = matches + 1;
                if matches >= 2 {
                    return true;
                }
            }
            index = index + delimiter.len();
        } else {
            index = index + 1;
        }
    }
    false
}

/// Whether `source` holds both `\[` and `\]`.
pub fn has_bracket_math(source: &Vec<char>) -> (b: bool)
    ensures
        b == has_brackets(source@),
{
    let open = vec!['\\', '['];
    let close = vec!['\\', ']'];
    assert(open@ =~= open_bracket());
    assert(close@ =~= close_bracket());
    find_from_exec(source, &open, 0).is_some() && find_from_exec(source, &close, 0).is_some()
}

/// The number of lone, unescaped dollars in `source`.
pub fn unescaped_single_dollar_count(source: &Vec<char>) -> (n: usize)
    ensures
        n == lone_dollar_count(source@, source@.len() as int),
{
    let mut n: usize = 0;
    let mut idx: usize = 0;
    while idx < source.len()
        invariant
            idx <= source.len(),
            n == lone_dollar_count(source@, idx as int),
            n <= idx,
        decreases source.len() - idx,
    {
        let ch = source[idx];
        if ch == '$' && !is_escaped_at(source, idx) {
            let before_ok = idx == 0 || source[idx - 1] != '$';
            let after_ok = idx + 1 >= source.len() || source[idx + 1] != '$';
            if before_ok && after_ok {
                n = n + 1;
            }
        }
        idx = idx + 1;
    }
    n
}

/// Whether `source` holds TeX math that a math renderer should typeset: two
/// unescaped `$$`, both `\[` and `\]`, or two lone unescaped `$`.
pub fn contains_math_delimiter(source: &str) -> (b: bool)
    ensures
        b == has_math(source@),
{
    let cs = chars_of(source);
    let dd = vec!['$', '$'];
    assert(dd@ =~= double_dollar());
    has_unescaped_pair(&cs, &dd) || has_bracket_math(&cs) || unescaped_single_dollar_count(&cs)
        >= 2
}

} // verus!
