//! Character-level building blocks: searching, trimming and splitting text,
//! stated over `Seq<char>` and implemented over `Vec<char>` and `String`.
use vstd::prelude::*;

verus! {

/// Appending one character to a `String` appends it to the string's characters.
pub assume_specification[ String::push ](s: &mut String, ch: char)
    ensures
        final(s)@ == old(s)@.push(ch),
;

// ---------------------------------------------------------------------------
// Specifications
// ---------------------------------------------------------------------------

/// The characters that carry the Unicode `White_Space` property, which is what
/// `char::is_whitespace` and `str::trim` go by.
pub open spec fn is_ws(c: char) -> bool {
    ||| c == '\t'
    ||| c == '\n'
    ||| c == '\u{0B}'
    ||| c == '\u{0C}'
    ||| c == '\r'
    ||| c == ' '
    ||| c == '\u{85}'
    ||| c == '\u{A0}'
    ||| c == '\u{1680}'
    ||| ('\u{2000}' <= c && c <= '\u{200A}')
    ||| c == '\u{2028}'
    ||| c == '\u{2029}'
    ||| c == '\u{202F}'
    ||| c == '\u{205F}'
    ||| c == '\u{3000}'
}

/// `s` with its leading whitespace removed.
pub open spec fn trim_start(s: Seq<char>) -> Seq<char>
    decreases s.len(),
{
    if s.len() > 0 && is_ws(s[0]) {
        trim_start(s.drop_first())
    } else {
        s
    }
}

/// `s` with its trailing whitespace removed.
pub open spec fn trim_end(s: Seq<char>) -> Seq<char>
    decreases s.len(),
{
    if s.len() > 0 && is_ws(s.last()) {
        trim_end(s.drop_last())
    } else {
        s
    }
}

/// `s` with whitespace removed at both ends.
pub open spec fn trim(s: Seq<char>) -> Seq<char> {
    trim_end(trim_start(s))
}

/// `s` with every trailing carriage return removed.
pub open spec fn trim_end_cr(s: Seq<char>) -> Seq<char>
    decreases s.len(),
{
    if s.len() > 0 && s.last() == '\r' {
        trim_end_cr(s.drop_last())
    } else {
        s
    }
}

/// Every character of `s` is whitespace.
pub open spec fn all_ws(s: Seq<char>) -> bool {
    forall|i: int| 0 <= i < s.len() ==> is_ws(#[trigger] s[i])
}

/// `m` occurs in `s` starting at position `i`.
pub open spec fn matches_at(s: Seq<char>, m: Seq<char>, i: int) -> bool {
    &&& 0 <= i
    &&& i + m.len() <= s.len()
    &&& forall|k: int| 0 <= k < m.len() ==> s[i + k] == #[trigger] m[k]
}

/// The first position at or after `i` where the non-empty `m` occurs in `s`.
pub open spec fn find_from(s: Seq<char>, m: Seq<char>, i: nat) -> Option<nat>
    decreases s.len() - i,
{
    if m.len() == 0 || i >= s.len() || i + m.len() > s.len() {
        None
    } else if matches_at(s, m, i as int) {
        Some(i)
    } else {
        find_from(s, m, i + 1)
    }
}

/// The first position where `m` occurs in `s`.
pub open spec fn find(s: Seq<char>, m: Seq<char>) -> Option<nat> {
    find_from(s, m, 0)
}

/// `m` occurs somewhere in `s`.
pub open spec fn contains(s: Seq<char>, m: Seq<char>) -> bool {
    find(s, m) is Some
}

/// `s` begins with `p`.
pub open spec fn starts_with(s: Seq<char>, p: Seq<char>) -> bool {
    p.len() <= s.len() && s.take(p.len() as int) == p
}

/// The lines of `s`, as `str::lines` splits them at each `'\n'`: a final
/// line ending adds no empty line, and an empty text has no lines.
pub open spec fn split_lines(s: Seq<char>) -> Seq<Seq<char>>
    decreases s.len(),
{
    if s.len() == 0 {
        seq![]
    } else {
        match find(s, seq!['\n']) {
            None => seq![s],
            Some(i) => {
                proof {
                    lemma_find_from(s, seq!['\n'], 0);
                }
                seq![s.take(i as int)] + split_lines(s.skip(i as int + 1))
            },
        }
    }
}

/// The pieces of `ps` joined with a single space between neighbours.
pub open spec fn join_space(ps: Seq<Seq<char>>) -> Seq<char>
    decreases ps.len(),
{
    if ps.len() == 0 {
        seq![]
    } else if ps.len() == 1 {
        ps[0]
    } else {
        join_space(ps.drop_last()) + seq![' '] + ps.last()
    }
}

/// `s` with every occurrence of the non-empty `pat` replaced by `rep`, the
/// occurrences taken from left to right without overlap, as `str::replace`
/// takes them.
pub open spec fn replace_all(s: Seq<char>, pat: Seq<char>, rep: Seq<char>) -> Seq<char>
    decreases s.len(),
{
    if pat.len() == 0 || s.len() == 0 {
        s
    } else if matches_at(s, pat, 0) {
        rep + replace_all(s.skip(pat.len() as int), pat, rep)
    } else {
        seq![s[0]] + replace_all(s.drop_first(), pat, rep)
    }
}

// ---------------------------------------------------------------------------
// Lemmas about the specifications
// ---------------------------------------------------------------------------

/// What `find_from` returns is the first occurrence at or after `i`.
pub proof fn lemma_find_from(s: Seq<char>, m: Seq<char>, i: nat)
    ensures
        match find_from(s, m, i) {
            Some(p) => {
                &&& i <= p
                &&& m.len() > 0
                &&& matches_at(s, m, p as int)
                &&& forall|j: int| i <= j < p ==> !matches_at(s, m, j)
            },
            None => m.len() == 0 || forall|j: int| i <= j ==> !matches_at(s, m, j),
        },
    decreases s.len() - i,
{
    if m.len() == 0 || i >= s.len() || i + m.len() > s.len() {
    } else if matches_at(s, m, i as int) {
    } else {
        lemma_find_from(s, m, i + 1);
    }
}

/// A match with no match before it is what `find` finds.
pub proof fn lemma_find_first(s: Seq<char>, m: Seq<char>, p: nat)
    requires
        m.len() > 0,
        matches_at(s, m, p as int),
        forall|j: int| 0 <= j < p ==> !matches_at(s, m, j),
    ensures
        find(s, m) == Some(p),
{
    lemma_find_from(s, m, 0);
}

/// Searching a suffix of `s` is searching `s` from where the suffix starts.
pub proof fn lemma_find_from_shift(s: Seq<char>, m: Seq<char>, st: nat, j: nat)
    requires
        st <= s.len(),
    ensures
        find_from(s.skip(st as int), m, j) == match find_from(s, m, st + j) {
            Some(p) => Some((p - st) as nat),
            None => None,
        },
    decreases s.len() - st - j,
{
    let t = s.skip(st as int);
    if m.len() == 0 || j >= t.len() || j + m.len() > t.len() {
    } else {
        assert(matches_at(t, m, j as int) == matches_at(s, m, (st + j) as int)) by {
            if matches_at(t, m, j as int) {
                assert forall|k: int| 0 <= k < m.len() implies s[st + j + k] == #[trigger] m[k] by {
                    assert(t[j + k] == s[st + j + k]);
                }
            }
            if matches_at(s, m, (st + j) as int) {
                assert forall|k: int| 0 <= k < m.len() implies t[j + k] == #[trigger] m[k] by {
                    assert(t[j + k] == s[st + j + k]);
                }
            }
        }
        if !matches_at(t, m, j as int) {
            lemma_find_from_shift(s, m, st, j + 1);
            assert(st + (j + 1) == (st + j) + 1);
        }
    }
}

/// Whether `m` occurs in `s` is whether it matches at some position.
pub proof fn lemma_contains(s: Seq<char>, m: Seq<char>)
    requires
        m.len() > 0,
    ensures
        contains(s, m) <==> exists|j: int| matches_at(s, m, j),
{
    lemma_find_from(s, m, 0);
}

/// `trim_start` drops exactly the leading whitespace.
pub proof fn lemma_trim_start_skip(s: Seq<char>, i: int)
    requires
        0 <= i <= s.len(),
        forall|k: int| 0 <= k < i ==> is_ws(#[trigger] s[k]),
    ensures
        trim_start(s) == trim_start(s.skip(i)),
    decreases i,
{
    if i > 0 {
        lemma_trim_start_skip(s.drop_first(), i - 1);
        assert(s.drop_first().skip(i - 1) =~= s.skip(i));
    } else {
        assert(s.skip(0) =~= s);
    }
}

/// `trim_end` drops exactly the trailing whitespace.
pub proof fn lemma_trim_end_take(s: Seq<char>, j: int)
    requires
        0 <= j <= s.len(),
        forall|k: int| j <= k < s.len() ==> is_ws(#[trigger] s[k]),
    ensures
        trim_end(s) == trim_end(s.take(j)),
    decreases s.len() - j,
{
    if j < s.len() {
        lemma_trim_end_take(s.drop_last(), j);
        assert(s.drop_last().take(j) =~= s.take(j));
    } else {
        assert(s.take(j) =~= s);
    }
}

/// `trim_end_cr` drops exactly the trailing carriage returns.
pub proof fn lemma_trim_end_cr_take(s: Seq<char>, j: int)
    requires
        0 <= j <= s.len(),
        forall|k: int| j <= k < s.len() ==> #[trigger] s[k] == '\r',
    ensures
        trim_end_cr(s) == trim_end_cr(s.take(j)),
    decreases s.len() - j,
{
    if j < s.len() {
        lemma_trim_end_cr_take(s.drop_last(), j);
        assert(s.drop_last().take(j) =~= s.take(j));
    } else {
        assert(s.take(j) =~= s);
    }
}

/// A text trims to nothing exactly when it is all whitespace.
pub proof fn lemma_trim_empty(s: Seq<char>)
    ensures
        (trim(s).len() == 0) <==> all_ws(s),
    decreases s.len(),
{
    lemma_trim_start_all_ws(s);
    lemma_trim_end_len(trim_start(s));
}

proof fn lemma_trim_start_all_ws(s: Seq<char>)
    ensures
        (trim_start(s).len() == 0) <==> all_ws(s),
        trim_start(s).len() == 0 || !is_ws(trim_start(s)[0]),
    decreases s.len(),
{
    if s.len() > 0 && is_ws(s[0]) {
        lemma_trim_start_all_ws(s.drop_first());
        if all_ws(s.drop_first()) {
            assert forall|i: int| 0 <= i < s.len() implies is_ws(#[trigger] s[i]) by {
                if i > 0 {
                    assert(s[i] == s.drop_first()[i - 1]);
                }
            }
        }
        if all_ws(s) {
            assert forall|i: int| 0 <= i < s.drop_first().len() implies is_ws(
                #[trigger] s.drop_first()[i],
            ) by {
                assert(s.drop_first()[i] == s[i + 1]);
            }
        }
    } else if s.len() > 0 {
        assert(!is_ws(s[0]));
    }
}

proof fn lemma_trim_end_len(s: Seq<char>)
    requires
        s.len() == 0 || !is_ws(s[0]),
    ensures
        (trim_end(s).len() == 0) <==> (s.len() == 0),
    decreases s.len(),
{
    if s.len() > 0 && is_ws(s.last()) {
        assert(s.len() > 1);
        lemma_trim_end_len(s.drop_last());
    }
}

/// Replacing a single character distributes over concatenation.
pub proof fn lemma_replace_char_append(a: Seq<char>, b: Seq<char>, c: char, rep: Seq<char>)
    ensures
        replace_all(a + b, seq![c], rep) == replace_all(a, seq![c], rep) + replace_all(
            b,
            seq![c],
            rep,
        ),
    decreases a.len(),
{
    let p = seq![c];
    if a.len() == 0 {
        assert(a + b =~= b);
        assert(replace_all(a, p, rep) + replace_all(b, p, rep) =~= replace_all(b, p, rep));
    } else {
        lemma_replace_char_append(a.drop_first(), b, c, rep);
        assert((a + b).drop_first() =~= a.drop_first() + b);
        assert((a + b)[0] == a[0]);
        assert(matches_at(a + b, p, 0) == matches_at(a, p, 0)) by {
            if matches_at(a, p, 0) {
                assert(a[0int] == p[0]);
            }
            if matches_at(a + b, p, 0) {
                assert((a + b)[0int] == p[0]);
            }
        }
        assert((a + b).skip(1) =~= a.skip(1) + b);
        if matches_at(a, p, 0) {
            assert(replace_all(a + b, p, rep) =~= rep + (replace_all(a.skip(1), p, rep)
                + replace_all(b, p, rep)));
        } else {
            assert(replace_all(a + b, p, rep) =~= seq![a[0]] + (replace_all(a.drop_first(), p, rep)
                + replace_all(b, p, rep)));
        }
    }
}

/// Replacing a character that does not occur changes nothing.
pub proof fn lemma_replace_char_absent(s: Seq<char>, c: char, rep: Seq<char>)
    requires
        forall|i: int| 0 <= i < s.len() ==> #[trigger] s[i] != c,
    ensures
        replace_all(s, seq![c], rep) == s,
    decreases s.len(),
{
    if s.len() > 0 {
        let d = s.drop_first();
        assert forall|i: int| 0 <= i < d.len() implies #[trigger] d[i] != c by {
            assert(d[i] == s[i + 1]);
        }
        lemma_replace_char_absent(d, c, rep);
        if matches_at(s, seq![c], 0) {
            assert(s[0int] == seq![c][0]);
        }
        assert(seq![s[0]] + d =~= s);
    }
}

/// Replacing a single character in a one-character text.
pub proof fn lemma_replace_char_single(x: char, c: char, rep: Seq<char>)
    ensures
        replace_all(seq![x], seq![c], rep) == if x == c {
            rep
        } else {
            seq![x]
        },
{
    let s = seq![x];
    let e = Seq::<char>::empty();
    assert(replace_all(e, seq![c], rep) == e);
    assert(s.skip(1) =~= e);
    assert(s.drop_first() =~= Seq::<char>::empty());
    if x == c {
        assert(matches_at(s, seq![c], 0));
        assert(rep + Seq::<char>::empty() =~= rep);
    } else {
        if matches_at(s, seq![c], 0) {
            assert(s[0int] == seq![c][0]);
        }
        assert(seq![x] + Seq::<char>::empty() =~= seq![x]);
    }
}

/// Replacing `pat` after a piece that it cannot match at its start, and whose
/// later characters cannot start it, leaves the piece as it is.
pub proof fn lemma_replace_after_piece(piece: Seq<char>, rest: Seq<char>, pat: Seq<char>, rep: Seq<char>)
    requires
        pat.len() > 0,
        piece.len() > 0,
        !matches_at(piece + rest, pat, 0),
        forall|i: int| 1 <= i < piece.len() ==> #[trigger] piece[i] != pat[0],
    ensures
        replace_all(piece + rest, pat, rep) == piece + replace_all(rest, pat, rep),
    decreases piece.len(),
{
    let x = piece + rest;
    assert(x[0] == piece[0]);
    assert(x.drop_first() =~= piece.drop_first() + rest);
    let d = piece.drop_first();
    if d.len() > 0 {
        assert(!matches_at(d + rest, pat, 0)) by {
            if matches_at(d + rest, pat, 0) {
                assert((d + rest)[0int + 0] == pat[0]);
                assert((d + rest)[0] == piece[1]);
            }
        }
        assert forall|i: int| 1 <= i < d.len() implies #[trigger] d[i] != pat[0] by {
            assert(d[i] == piece[i + 1]);
        }
        lemma_replace_after_piece(d, rest, pat, rep);
        assert(seq![piece[0]] + (d + replace_all(rest, pat, rep)) =~= piece + replace_all(
            rest,
            pat,
            rep,
        ));
    } else {
        assert(d + rest =~= rest);
        assert(seq![piece[0]] + replace_all(rest, pat, rep) =~= piece + replace_all(rest, pat, rep));
    }
}

// ---------------------------------------------------------------------------
// Executable building blocks
// ---------------------------------------------------------------------------

/// The characters of `s`, in order.
pub fn chars_of(s: &str) -> (v: Vec<char>)
    ensures
        v@ == s@,
{
    let mut v: Vec<char> = Vec::new();
    for c in it: s.chars()
        invariant
            v@ == it.seq().take(it.index() as int),
    {
        v.push(c);
    }
    v
}

/// The string made of the characters of `cs`.
pub fn string_of(cs: &Vec<char>) -> (r: String)
    ensures
        r@ == cs@,
{
    let mut r = String::new();
    push_chars(&mut r, cs);
    r
}

/// Appends the characters of `cs` to `out`.
pub fn push_chars(out: &mut String, cs: &Vec<char>)
    ensures
        final(out)@ == old(out)@ + cs@,
{
    let mut i: usize = 0;
    while i < cs.len()
        invariant
            i <= cs.len(),
            out@ == old(out)@ + cs@.take(i as int),
        decreases cs.len() - i,
    {
        out.push(cs[i]);
        assert(cs@.take(i + 1) =~= cs@.take(i as int).push(cs@[i as int]));
        i = i + 1;
    }
    assert(cs@.take(cs.len() as int) =~= cs@);
}

/// The characters `v[lo..hi]`.
pub fn slice_chars(v: &Vec<char>, lo: usize, hi: usize) -> (r: Vec<char>)
    requires
        lo <= hi <= v.len(),
    ensures
        r@ == v@.subrange(lo as int, hi as int),
{
    let mut r: Vec<char> = Vec::new();
    let mut i = lo;
    while i < hi
        invariant
            lo <= i <= hi <= v.len(),
            r@ == v@.subrange(lo as int, i as int),
        decreases hi - i,
    {
        r.push(v[i]);
        assert(v@.subrange(lo as int, i + 1) =~= v@.subrange(lo as int, i as int).push(
            v@[i as int],
        ));
        i = i + 1;
    }
    r
}

/// Whether `c` is whitespace in the sense of `char::is_whitespace`.
pub fn is_whitespace(c: char) -> (b: bool)
    ensures
        b == is_ws(c),
{
    c == '\t' || c == '\n' || c == '\u{0B}' || c == '\u{0C}' || c == '\r' || c == ' ' || c
        == '\u{85}' || c == '\u{A0}' || c == '\u{1680}' || ('\u{2000}' <= c && c <= '\u{200A}')
        || c == '\u{2028}' || c == '\u{2029}' || c == '\u{202F}' || c == '\u{205F}' || c
        == '\u{3000}'
}

/// `s` with whitespace removed at both ends.
pub fn trim_chars(s: &Vec<char>) -> (r: Vec<char>)
    ensures
        r@ == trim(s@),
{
    let mut i: usize = 0;
    while i < s.len() && is_whitespace(s[i])
        invariant
            i <= s.len(),
            forall|k: int| 0 <= k < i ==> is_ws(#[trigger] s@[k]),
        decreases s.len() - i,
    {
        i = i + 1;
    }
    proof {
        lemma_trim_start_skip(s@, i as int);
        let t = s@.skip(i as int);
        if t.len() > 0 {
            assert(t[0] == s@[i as int]);
        }
        assert(trim_start(t) == t);
    }
    let mut j: usize = s.len();
    while j > i && is_whitespace(s[j - 1])
        invariant
            i <= j <= s.len(),
            forall|k: int| j <= k < s.len() ==> is_ws(#[trigger] s@[k]),
        decreases j - i,
    {
        j = j - 1;
    }
    proof {
        let t = s@.skip(i as int);
        let jj = j - i;
        assert forall|k: int| jj <= k < t.len() implies is_ws(#[trigger] t[k]) by {
            assert(t[k] == s@[k + i]);
        }
        lemma_trim_end_take(t, jj);
        let u = t.take(jj);
        if u.len() > 0 {
            assert(u.last() == s@[j - 1]);
        }
        assert(trim_end(u) == u);
        assert(u =~= s@.subrange(i as int, j as int));
    }
    slice_chars(s, i, j)
}

/// `s` with every trailing carriage return removed.
pub fn trim_end_cr_chars(s: &Vec<char>) -> (r: Vec<char>)
    ensures
        r@ == trim_end_cr(s@),
{
    let mut j: usize = s.len();
    while j > 0 && s[j - 1] == '\r'
        invariant
            j <= s.len(),
            forall|k: int| j <= k < s.len() ==> #[trigger] s@[k] == '\r',
        decreases j,
    {
        j = j - 1;
    }
    proof {
        lemma_trim_end_cr_take(s@, j as int);
        let u = s@.take(j as int);
        if u.len() > 0 {
            assert(u.last() == s@[j - 1]);
        }
        assert(trim_end_cr(u) == u);
        assert(u =~= s@.subrange(0, j as int));
    }
    slice_chars(s, 0, j)
}

/// Whether `m` occurs in `s` starting at position `i`.
pub fn matches_at_exec(s: &Vec<char>, m: &Vec<char>, i: usize) -> (b: bool)
    ensures
        b == matches_at(s@, m@, i as int),
{
    if i > s.len() || m.len() > s.len() - i {
        return false;
    }
    let mut k: usize = 0;
    while k < m.len()
        invariant
            i + m.len() <= s.len(),
            k <= m.len(),
            forall|q: int| 0 <= q < k ==> s@[i + q] == #[trigger] m@[q],
        decreases m.len() - k,
    {
        if s[i + k] != m[k] {
            return false;
        }
        k = k + 1;
    }
    true
}

/// The first position at or after `from` where the non-empty `m` occurs in `s`.
pub fn find_from_exec(s: &Vec<char>, m: &Vec<char>, from: usize) -> (r: Option<usize>)
    ensures
        match r {
            Some(p) => find_from(s@, m@, from as nat) == Some(p as nat),
            None => find_from(s@, m@, from as nat) is None,
        },
{
    if m.len() == 0 {
        return None;
    }
    let mut i = from;
    while i < s.len()
        invariant
            from <= i,
            m.len() > 0,
            find_from(s@, m@, from as nat) == find_from(s@, m@, i as nat),
        decreases s.len() - i,
    {
        if m.len() > s.len() - i {
            return None;
        }
        if matches_at_exec(s, m, i) {
            return Some(i);
        }
        i = i + 1;
    }
    None
}

/// Whether `s` begins with `p`.
pub fn starts_with_exec(s: &Vec<char>, p: &Vec<char>) -> (b: bool)
    ensures
        b == starts_with(s@, p@),
{
    let b = matches_at_exec(s, p, 0);
    proof {
        if b {
            assert(s@.take(p@.len() as int) =~= p@);
        }
        if starts_with(s@, p@) {
            assert forall|k: int| 0 <= k < p@.len() implies s@[0 + k] == #[trigger] p@[k] by {
                assert(s@.take(p@.len() as int)[k] == s@[k]);
            }
        }
    }
    b
}

/// The lines of `s`, split as `str::lines` splits them.
pub fn split_lines_exec(s: &Vec<char>) -> (r: Vec<Vec<char>>)
    ensures
        r@.len() == split_lines(s@).len(),
        forall|i: int| 0 <= i < r@.len() ==> #[trigger] r@[i]@ == split_lines(s@)[i],
{
    let nl = vec!['\n'];
    let mut r: Vec<Vec<char>> = Vec::new();
    let mut start: usize = 0;
    let ghost done: Seq<Seq<char>> = seq![];
    proof {
        assert(s@.skip(0) =~= s@);
        assert(done + split_lines(s@) =~= split_lines(s@));
    }
    while start < s.len()
        invariant
            start <= s.len(),
            nl@ == seq!['\n'],
            r@.len() == done.len(),
            forall|i: int| 0 <= i < r@.len() ==> #[trigger] r@[i]@ == done[i],
            split_lines(s@) == done + split_lines(s@.skip(start as int)),
        decreases s.len() - start,
    {
        let ghost t = s@.skip(start as int);
        let f = find_from_exec(s, &nl, start);
        proof {
            lemma_find_from_shift(s@, nl@, start as nat, 0);
            lemma_find_from(s@, nl@, start as nat);
            assert(nl@ =~= seq!['\n']);
        }
        match f {
            None => {
                r.push(slice_chars(s, start, s.len()));
                proof {
                    assert(t =~= s@.subrange(start as int, s.len() as int));
                    done = done.push(t);
                    assert(s@.skip(s.len() as int) =~= Seq::<char>::empty());
                    assert(split_lines(s@.skip(s.len() as int)) =~= Seq::<Seq<char>>::empty());
                }
                start = s.len();
            },
            Some(p) => {
                let ghost q = (p - start) as nat;
                proof {
                    assert(find(t, seq!['\n']) == Some(q));
                    assert(t.take(q as int) =~= s@.subrange(start as int, p as int));
                    assert(t.skip(q as int + 1) =~= s@.skip(p + 1));
                }
                r.push(slice_chars(s, start, p));
                proof {
                    done = done.push(t.take(q as int));
                }
                start = p + 1;
            },
        }
    }
    proof {
        assert(s@.skip(start as int) =~= Seq::<char>::empty());
        assert(done + Seq::<Seq<char>>::empty() =~= done);
    }
    r
}

} // verus!
