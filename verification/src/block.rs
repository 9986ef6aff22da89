//! Block-level Markdown: headings, lists, quotes, fenced code and paragraphs,
//! rendered line by line into HTML.
use vstd::prelude::*;
use crate::escape::{escape, escape_chars, lemma_escape_has_no_markup};
use crate::inline::{
    inline_md, inline_tags, lemma_inline_md_len, lemma_inline_only_own_tags, lemma_lt_only_append,
    lemma_no_lt_only, lemma_tag_lt_only, lt_only_in_tags, no_lt, plain_tags, render_inline_markdown,
};
use crate::text::{
    all_ws, chars_of, find, is_ws, join_space, lemma_find_first, lemma_find_from,
    lemma_replace_char_absent, lemma_replace_char_append, lemma_replace_char_single,
    lemma_trim_empty, matches_at, replace_all, trim_end, trim_start, slice_chars, split_lines, split_lines_exec, starts_with,
    starts_with_exec, trim, trim_chars, trim_end_cr, trim_end_cr_chars,
};

verus! {

/// The kind of list that is open.
#[derive(Clone, Copy, PartialEq, Eq, Structural, Debug)]
pub enum ListKind {
    Ordered,
    Unordered,
}

/// The state of the renderer between two lines: the HTML written so far, the
/// lines of the paragraph being gathered, the open list, and whether a fenced
/// code block is open.
#[verifier::ext_equal]
pub struct Blocks {
    pub out: Seq<char>,
    pub para: Seq<Seq<char>>,
    pub list: Option<ListKind>,
    pub fence: bool,
}

/// The state before the first line.
pub open spec fn initial_blocks() -> Blocks {
    Blocks { out: seq![], para: seq![], list: None, fence: false }
}

/// The code-fence marker.
pub open spec fn fence_marker() -> Seq<char> {
    seq!['`', '`', '`']
}

/// `s` without its prefix `p`, when `s` begins with `p`.
pub open spec fn strip_prefix(s: Seq<char>, p: Seq<char>) -> Option<Seq<char>> {
    if starts_with(s, p) {
        Some(s.skip(p.len() as int))
    } else {
        None
    }
}

/// How many times `c` is repeated at the start of `s`.
pub open spec fn leading_count(s: Seq<char>, c: char) -> nat
    decreases s.len(),
{
    if s.len() > 0 && s[0] == c {
        1 + leading_count(s.drop_first(), c)
    } else {
        0
    }
}

/// An ASCII decimal digit.
pub open spec fn is_digit(c: char) -> bool {
    '0' <= c && c <= '9'
}

/// How many ASCII digits begin `s`.
pub open spec fn leading_digits(s: Seq<char>) -> nat
    decreases s.len(),
{
    if s.len() > 0 && is_digit(s[0]) {
        1 + leading_digits(s.drop_first())
    } else {
        0
    }
}

/// A heading line: one to six `#`, a space, then the (trimmed) heading text.
pub open spec fn heading_parts(t: Seq<char>) -> Option<(nat, Seq<char>)> {
    let level = leading_count(t, '#');
    if 1 <= level <= 6 && level < t.len() && t[level as int] == ' ' {
        Some((level, trim(t.skip(level as int + 1))))
    } else {
        None
    }
}

/// The text of an unordered list item, marked by `- `, `* ` or `+ `.
pub open spec fn unordered_item(t: Seq<char>) -> Option<Seq<char>> {
    if starts_with(t, seq!['-', ' ']) {
        Some(t.skip(2))
    } else if starts_with(t, seq!['*', ' ']) {
        Some(t.skip(2))
    } else if starts_with(t, seq!['+', ' ']) {
        Some(t.skip(2))
    } else {
        None
    }
}

/// The text of an ordered list item, marked by digits followed by `. `.
pub open spec fn ordered_item(t: Seq<char>) -> Option<Seq<char>> {
    let d = leading_digits(t);
    if d == 0 {
        None
    } else {
        strip_prefix(t.skip(d as int), seq!['.', ' '])
    }
}

/// The digit that names a heading level from 1 to 6.
pub open spec fn level_digit(level: nat) -> char {
    if level == 1 {
        '1'
    } else if level == 2 {
        '2'
    } else if level == 3 {
        '3'
    } else if level == 4 {
        '4'
    } else if level == 5 {
        '5'
    } else {
        '6'
    }
}

/// The HTML of a heading.
pub open spec fn heading_html(level: nat, text: Seq<char>) -> Seq<char> {
    "<h"@ + seq![level_digit(level)] + ">"@ + inline_md(text) + "</h"@ + seq![level_digit(level)]
        + ">\n"@
}

/// The HTML that opens a fenced code block in the language `lang`.
pub open spec fn open_code(lang: Seq<char>) -> Seq<char> {
    if lang.len() == 0 {
        "<pre><code>"@
    } else {
        "<pre><code class=\"language-"@ + escape(lang) + "\">"@
    }
}

/// The gathered paragraph, if any, written out as a `<p>` element.
pub open spec fn flush(st: Blocks) -> Blocks {
    if st.para.len() == 0 {
        st
    } else {
        Blocks {
            out: st.out + "<p>"@ + inline_md(join_space(st.para)) + "</p>\n"@,
            para: seq![],
            ..st
        }
    }
}

/// The open list, if any, closed.
pub open spec fn list_closed(st: Blocks) -> Blocks {
    match st.list {
        Some(ListKind::Ordered) => Blocks { out: st.out + "</ol>\n"@, list: None, ..st },
        Some(ListKind::Unordered) => Blocks { out: st.out + "</ul>\n"@, list: None, ..st },
        None => st,
    }
}

/// A list of kind `kind` open: kept when it already is, else opened after
/// closing the other kind.
pub open spec fn list_opened(st: Blocks, kind: ListKind) -> Blocks {
    if st.list == Some(kind) {
        st
    } else {
        let c = list_closed(st);
        Blocks {
            out: c.out + match kind {
                ListKind::Ordered => "<ol>\n"@,
                ListKind::Unordered => "<ul>\n"@,
            },
            list: Some(kind),
            ..c
        }
    }
}

/// `st` with `piece` written after its HTML.
pub open spec fn emit(st: Blocks, piece: Seq<char>) -> Blocks {
    Blocks { out: st.out + piece, ..st }
}

/// The effect of one line (`raw`, as split from the text) on the state.
pub open spec fn step(st: Blocks, raw: Seq<char>) -> Blocks {
    let line = trim_end_cr(raw);
    let t = trim(line);
    if st.fence {
        if starts_with(t, fence_marker()) {
            Blocks { out: st.out + "</code></pre>\n"@, fence: false, ..st }
        } else {
            emit(st, escape(line) + seq!['\n'])
        }
    } else if starts_with(t, fence_marker()) {
        let b = list_closed(flush(st));
        Blocks { out: b.out + open_code(trim(t.skip(3))), fence: true, ..b }
    } else if t.len() == 0 {
        list_closed(flush(st))
    } else if heading_parts(t) is Some {
        let (level, text) = heading_parts(t)->0;
        emit(list_closed(flush(st)), heading_html(level, text))
    } else if strip_prefix(t, seq!['>', ' ']) is Some {
        emit(
            list_closed(flush(st)),
            "<blockquote><p>"@ + inline_md(strip_prefix(t, seq!['>', ' '])->0)
                + "</p></blockquote>\n"@,
        )
    } else if unordered_item(t) is Some {
        emit(
            list_opened(flush(st), ListKind::Unordered),
            "<li>"@ + inline_md(unordered_item(t)->0) + "</li>\n"@,
        )
    } else if ordered_item(t) is Some {
        emit(
            list_opened(flush(st), ListKind::Ordered),
            "<li>"@ + inline_md(ordered_item(t)->0) + "</li>\n"@,
        )
    } else {
        let b = list_closed(st);
        Blocks { para: b.para.push(t), ..b }
    }
}

/// The state after the lines `lines`, starting from `st`.
pub open spec fn run(st: Blocks, lines: Seq<Seq<char>>) -> Blocks
    decreases lines.len(),
{
    if lines.len() == 0 {
        st
    } else {
        run(step(st, lines[0]), lines.drop_first())
    }
}

/// The HTML once the text has ended: an open code block, paragraph and list
/// are closed, and an empty result becomes an empty paragraph.
pub open spec fn finish(st: Blocks) -> Seq<char> {
    let a = if st.fence {
        emit(st, "</code></pre>\n"@)
    } else {
        st
    };
    let b = list_closed(flush(a));
    if b.out.len() == 0 {
        "<p></p>\n"@
    } else {
        b.out
    }
}

/// The HTML that the Markdown text `s` renders to.
pub open spec fn markdown_html(s: Seq<char>) -> Seq<char> {
    finish(run(initial_blocks(), split_lines(s)))
}

/// The rendered HTML is never empty.
pub proof fn lemma_markdown_html_nonempty(s: Seq<char>)
    ensures
        markdown_html(s).len() > 0,
{
    reveal_strlit("<p></p>\n");
}

proof fn lemma_trim_end_cr_all_ws(s: Seq<char>)
    requires
        all_ws(s),
    ensures
        all_ws(trim_end_cr(s)),
    decreases s.len(),
{
    if s.len() > 0 && s.last() == '\r' {
        let d = s.drop_last();
        assert forall|i: int| 0 <= i < d.len() implies is_ws(#[trigger] d[i]) by {
            assert(d[i] == s[i]);
        }
        lemma_trim_end_cr_all_ws(d);
    }
}

proof fn lemma_split_lines_all_ws(s: Seq<char>)
    requires
        all_ws(s),
    ensures
        forall|j: int| 0 <= j < split_lines(s).len() ==> all_ws(#[trigger] split_lines(s)[j]),
    decreases s.len(),
{
    if s.len() > 0 {
        lemma_find_from(s, seq!['\n'], 0);
        match find(s, seq!['\n']) {
            None => {},
            Some(i) => {
                let head = s.take(i as int);
                let tail = s.skip(i as int + 1);
                assert forall|k: int| 0 <= k < head.len() implies is_ws(#[trigger] head[k]) by {
                    assert(head[k] == s[k]);
                }
                assert forall|k: int| 0 <= k < tail.len() implies is_ws(#[trigger] tail[k]) by {
                    assert(tail[k] == s[k + i + 1]);
                }
                lemma_split_lines_all_ws(tail);
                let ls = split_lines(s);
                assert(ls == seq![head] + split_lines(tail));
                assert forall|j: int| 0 <= j < ls.len() implies all_ws(#[trigger] ls[j]) by {
                    if j > 0 {
                        assert(ls[j] == split_lines(tail)[j - 1]);
                    }
                }
            },
        }
    }
}

proof fn lemma_run_blank(lines: Seq<Seq<char>>)
    requires
        forall|j: int| 0 <= j < lines.len() ==> all_ws(#[trigger] lines[j]),
    ensures
        run(initial_blocks(), lines) == initial_blocks(),
    decreases lines.len(),
{
    if lines.len() > 0 {
        let l = lines[0];
        lemma_trim_end_cr_all_ws(l);
        let line = trim_end_cr(l);
        lemma_trim_empty(line);
        let t = trim(line);
        assert(!starts_with(t, fence_marker()));
        assert(step(initial_blocks(), l) == initial_blocks());
        let rest = lines.drop_first();
        assert forall|j: int| 0 <= j < rest.len() implies all_ws(#[trigger] rest[j]) by {
            assert(rest[j] == lines[j + 1]);
        }
        lemma_run_blank(rest);
    }
}

/// Text that is empty or only whitespace renders as one empty paragraph.
pub proof fn lemma_blank_markdown(s: Seq<char>)
    requires
        all_ws(s),
    ensures
        markdown_html(s) == "<p></p>\n"@,
{
    lemma_split_lines_all_ws(s);
    lemma_run_blank(split_lines(s));
    assert(flush(initial_blocks()) == initial_blocks());
}

/// `s` with each line feed preceded by a carriage return.
pub open spec fn crlf(s: Seq<char>) -> Seq<char> {
    replace_all(s, seq!['\n'], seq!['\r', '\n'])
}

/// A line's effect depends only on the line without its trailing carriage
/// returns.
proof fn lemma_run_same_lines(st: Blocks, a: Seq<Seq<char>>, b: Seq<Seq<char>>)
    requires
        a.len() == b.len(),
        forall|j: int| 0 <= j < a.len() ==> trim_end_cr(#[trigger] a[j]) == trim_end_cr(b[j]),
    ensures
        run(st, a) == run(st, b),
    decreases a.len(),
{
    if a.len() > 0 {
        assert(trim_end_cr(a[0]) == trim_end_cr(b[0]));
        assert(step(st, a[0]) == step(st, b[0]));
        let (ra, rb) = (a.drop_first(), b.drop_first());
        assert forall|j: int| 0 <= j < ra.len() implies trim_end_cr(#[trigger] ra[j])
            == trim_end_cr(rb[j]) by {
            assert(ra[j] == a[j + 1]);
            assert(rb[j] == b[j + 1]);
        }
        lemma_run_same_lines(step(st, a[0]), ra, rb);
    }
}

proof fn lemma_no_newline(s: Seq<char>)
    requires
        find(s, seq!['\n']) is None,
    ensures
        forall|k: int| 0 <= k < s.len() ==> #[trigger] s[k] != '\n',
{
    lemma_find_from(s, seq!['\n'], 0);
    assert forall|k: int| 0 <= k < s.len() implies #[trigger] s[k] != '\n' by {
        if s[k] == '\n' {
            assert(matches_at(s, seq!['\n'], k));
        }
    }
}

/// The lines of a text with CRLF line endings are its lines with LF endings,
/// each but perhaps the last followed by a carriage return.
proof fn lemma_split_lines_crlf(s: Seq<char>)
    ensures
        split_lines(crlf(s)).len() == split_lines(s).len(),
        forall|j: int|
            0 <= j < split_lines(s).len() ==> trim_end_cr(#[trigger] split_lines(crlf(s))[j])
                == trim_end_cr(split_lines(s)[j]),
    decreases s.len(),
{
    let nl = seq!['\n'];
    let crnl = seq!['\r', '\n'];
    let c = crlf(s);
    if s.len() == 0 {
        assert(c == s);
    } else {
        lemma_find_from(s, nl, 0);
        match find(s, nl) {
            None => {
                lemma_no_newline(s);
                lemma_replace_char_absent(s, '\n', crnl);
            },
            Some(i) => {
                let a = s.take(i as int);
                let b = s.skip(i as int + 1);
                assert forall|k: int| 0 <= k < a.len() implies #[trigger] a[k] != '\n' by {
                    assert(a[k] == s[k]);
                    if s[k] == '\n' {
                        assert(matches_at(s, nl, k));
                    }
                }
                assert(s[i as int] == '\n') by {
                    assert(s[i as int + 0] == nl[0]);
                }
                assert(s =~= a + (nl + b));
                lemma_replace_char_append(a, nl + b, '\n', crnl);
                lemma_replace_char_append(nl, b, '\n', crnl);
                lemma_replace_char_absent(a, '\n', crnl);
                lemma_replace_char_single('\n', '\n', crnl);
                let cb = crlf(b);
                assert(c =~= a + seq!['\r', '\n'] + cb);
                assert(matches_at(c, nl, i as int + 1)) by {
                    assert(c[i as int + 1] == '\n');
                }
                assert forall|j: int| 0 <= j < i + 1 implies !matches_at(c, nl, j) by {
                    if j < i {
                        assert(c[j + 0] == a[j]);
                    } else {
                        assert(c[j + 0] == '\r');
                    }
                }
                lemma_find_first(c, nl, (i + 1) as nat);
                assert(c.take(i as int + 1) =~= a.push('\r'));
                assert(c.skip(i as int + 2) =~= cb);
                lemma_split_lines_crlf(b);
                let lc = split_lines(c);
                let ls = split_lines(s);
                assert(lc == seq![a.push('\r')] + split_lines(cb));
                assert(ls == seq![a] + split_lines(b));
                assert(a.push('\r').drop_last() =~= a);
                assert forall|j: int| 0 <= j < ls.len() implies trim_end_cr(#[trigger] lc[j])
                    == trim_end_cr(ls[j]) by {
                    if j > 0 {
                        assert(lc[j] == split_lines(cb)[j - 1]);
                        assert(ls[j] == split_lines(b)[j - 1]);
                    }
                }
            },
        }
    }
}

/// Text with CRLF line endings renders as the same text with LF endings.
pub proof fn lemma_crlf_renders_alike(s: Seq<char>)
    ensures
        markdown_html(crlf(s)) == markdown_html(s),
{
    lemma_split_lines_crlf(s);
    lemma_run_same_lines(initial_blocks(), split_lines(crlf(s)), split_lines(s));
}

/// The lines `body`, each followed by a line feed.
pub open spec fn terminated_lines(body: Seq<Seq<char>>) -> Seq<char>
    decreases body.len(),
{
    if body.len() == 0 {
        seq![]
    } else {
        body[0] + seq!['\n'] + terminated_lines(body.drop_first())
    }
}

/// A fenced code block: a fence line, the lines `body`, a closing fence.
pub open spec fn fenced_source(body: Seq<Seq<char>>) -> Seq<char> {
    fence_marker() + seq!['\n'] + terminated_lines(body) + fence_marker()
}

/// What the lines `body` of a code block become: each line, without its
/// trailing carriage returns, escaped and followed by a line feed.
pub open spec fn code_lines_html(body: Seq<Seq<char>>) -> Seq<char>
    decreases body.len(),
{
    if body.len() == 0 {
        seq![]
    } else {
        escape(trim_end_cr(body[0])) + seq!['\n'] + code_lines_html(body.drop_first())
    }
}

/// A line of a code block: no line feed, and not a fence once trimmed.
pub open spec fn is_code_line(l: Seq<char>) -> bool {
    &&& forall|k: int| 0 <= k < l.len() ==> #[trigger] l[k] != '\n'
    &&& !starts_with(trim(trim_end_cr(l)), fence_marker())
}

/// Splitting a line with no line feed, followed by a line feed and more text.
pub proof fn lemma_split_first_line(l: Seq<char>, rest: Seq<char>)
    requires
        forall|k: int| 0 <= k < l.len() ==> #[trigger] l[k] != '\n',
    ensures
        split_lines(l + seq!['\n'] + rest) == seq![l] + split_lines(rest),
{
    let nl = seq!['\n'];
    let s = l + nl + rest;
    assert(matches_at(s, nl, l.len() as int)) by {
        assert(s[l.len() as int + 0] == nl[0]);
    }
    assert forall|j: int| 0 <= j < l.len() implies !matches_at(s, nl, j) by {
        assert((l + nl)[j] == l[j]);
        assert(s[j] == (l + nl)[j]);
        if matches_at(s, nl, j) {
            assert(s[j + 0] == nl[0]);
        }
    }
    lemma_find_first(s, nl, l.len());
    assert(s.take(l.len() as int) =~= l);
    assert(s.skip(l.len() as int + 1) =~= rest);
}

proof fn lemma_split_terminated(body: Seq<Seq<char>>, last: Seq<char>)
    requires
        forall|j: int| 0 <= j < body.len() ==> is_code_line(#[trigger] body[j]),
        last == fence_marker(),
    ensures
        split_lines(terminated_lines(body) + last) == body + seq![last],
    decreases body.len(),
{
    let nl = seq!['\n'];
    if body.len() == 0 {
        assert(terminated_lines(body) + last =~= last);
        lemma_find_from(last, nl, 0);
        if find(last, nl) is Some {
            let q = find(last, nl)->0;
            assert(last[q as int + 0] == nl[0]);
        }
        assert(split_lines(last) == seq![last]);
        assert(body + seq![last] =~= seq![last]);
    } else {
        let rest = body.drop_first();
        assert forall|j: int| 0 <= j < rest.len() implies is_code_line(#[trigger] rest[j]) by {
            assert(rest[j] == body[j + 1]);
        }
        assert(is_code_line(body[0]));
        lemma_split_terminated(rest, last);
        assert(terminated_lines(body) + last =~= body[0] + nl + (terminated_lines(rest) + last));
        lemma_split_first_line(body[0], terminated_lines(rest) + last);
        assert(seq![body[0]] + (rest + seq![last]) =~= body + seq![last]);
    }
}

/// Inside a code block, the lines `body` and the closing fence write the
/// escaped lines and close the block.
proof fn lemma_run_code_block(st: Blocks, body: Seq<Seq<char>>)
    requires
        st.fence,
        forall|j: int| 0 <= j < body.len() ==> is_code_line(#[trigger] body[j]),
    ensures
        run(st, body + seq![fence_marker()]) == (Blocks {
            out: st.out + code_lines_html(body) + "</code></pre>\n"@,
            fence: false,
            ..st
        }),
    decreases body.len(),
{
    let f = fence_marker();
    if body.len() == 0 {
        assert(body + seq![f] =~= seq![f]);
        lemma_fence_line_steps(st);
        assert(seq![f].drop_first() =~= Seq::<Seq<char>>::empty());
        assert(run(st, seq![f]) == run(step(st, f), Seq::<Seq<char>>::empty()));
        assert(code_lines_html(body) =~= Seq::<char>::empty());
        assert(st.out + code_lines_html(body) =~= st.out);
    } else {
        let l = body[0];
        assert(is_code_line(l));
        let st1 = step(st, l);
        assert(st1 == emit(st, escape(trim_end_cr(l)) + seq!['\n']));
        let rest = body.drop_first();
        assert forall|j: int| 0 <= j < rest.len() implies is_code_line(#[trigger] rest[j]) by {
            assert(rest[j] == body[j + 1]);
        }
        lemma_run_code_block(st1, rest);
        assert((body + seq![f]).drop_first() =~= rest + seq![f]);
        assert((body + seq![f])[0] == l);
        assert(st1.out + code_lines_html(rest) + "</code></pre>\n"@ =~= st.out + code_lines_html(
            body,
        ) + "</code></pre>\n"@);
    }
}

/// What a fence line does to the state.
proof fn lemma_fence_line_steps(st: Blocks)
    ensures
        !st.fence && st.para.len() == 0 && (st.list is None) ==> step(st, fence_marker()) == (
        Blocks { out: st.out + "<pre><code>"@, fence: true, ..st }),
        st.fence ==> step(st, fence_marker()) == (Blocks {
            out: st.out + "</code></pre>\n"@,
            fence: false,
            ..st
        }),
{
    let f = fence_marker();
    assert(f.drop_last().last() == '`');
    assert(trim_end_cr(f) == f);
    assert(trim_start(f) == f);
    assert(trim_end(f) == f);
    assert(starts_with(f, f)) by {
        assert(f.take(3) =~= f);
    }
    let e = Seq::<char>::empty();
    assert(f.skip(3) =~= e);
    assert(trim_start(e) == e);
    assert(trim_end(e) == e);
}

/// Fenced code is written out escaped, line by line, as it stands: a fence
/// line, lines `body` that are not fences, and a closing fence render as one
/// code block holding each line escaped.
pub proof fn lemma_fenced_code_is_escaped(body: Seq<Seq<char>>)
    requires
        forall|j: int| 0 <= j < body.len() ==> is_code_line(#[trigger] body[j]),
    ensures
        markdown_html(fenced_source(body)) == "<pre><code>"@ + code_lines_html(body)
            + "</code></pre>\n"@,
{
    reveal_strlit("<pre><code>");
    let f = fence_marker();
    let nl = seq!['\n'];
    lemma_split_terminated(body, f);
    assert(fenced_source(body) =~= f + nl + (terminated_lines(body) + f));
    assert forall|k: int| 0 <= k < f.len() implies #[trigger] f[k] != '\n' by {}
    lemma_split_first_line(f, terminated_lines(body) + f);
    let ls = split_lines(fenced_source(body));
    assert(ls == seq![f] + (body + seq![f]));
    let st0 = initial_blocks();
    lemma_fence_line_steps(st0);
    let st1 = step(st0, f);
    assert(ls.drop_first() =~= body + seq![f]);
    lemma_run_code_block(st1, body);
    let st3 = run(st1, body + seq![f]);
    assert(run(st0, ls) == st3);
    assert(flush(st3) == st3);
    assert(st3.out =~= "<pre><code>"@ + code_lines_html(body) + "</code></pre>\n"@);
}

/// HTML that cannot grow into an empty paragraph: nothing yet, or a start
/// that differs from `<p></p>` before its ninth character.
pub open spec fn set_apart(out: Seq<char>) -> bool {
    ||| out.len() == 0
    ||| out.len() >= 9
    ||| (out.len() >= 3 && (out[1] != 'p' || out[2] != '>'))
}

/// What holds of every state the renderer reaches: the HTML is set apart from
/// an empty paragraph, gathered paragraph lines are not empty, and an open
/// list or code block has written something.
pub open spec fn well_begun(st: Blocks) -> bool {
    &&& set_apart(st.out)
    &&& forall|j: int| 0 <= j < st.para.len() ==> (#[trigger] st.para[j]).len() > 0
    &&& (st.list is Some ==> st.out.len() > 0)
    &&& (st.fence ==> st.out.len() > 0)
}

/// Something has been seen: HTML was written or paragraph lines gathered.
pub open spec fn begun(st: Blocks) -> bool {
    st.out.len() > 0 || st.para.len() > 0
}

proof fn lemma_set_apart_append(a: Seq<char>, b: Seq<char>)
    requires
        set_apart(a),
        a.len() > 0 || set_apart(b),
    ensures
        set_apart(a + b),
{
    if a.len() == 0 {
        assert(a + b =~= b);
    } else if a.len() < 9 {
        assert((a + b)[1] == a[1]);
        assert((a + b)[2] == a[2]);
    }
}

/// Writing a piece after HTML that is set apart, or a piece that is itself.
proof fn lemma_emit_well_begun(st: Blocks, piece: Seq<char>)
    requires
        well_begun(st),
        st.out.len() > 0 || (set_apart(piece) && piece.len() > 0),
    ensures
        well_begun(emit(st, piece)),
        emit(st, piece).out.len() > 0,
{
    lemma_set_apart_append(st.out, piece);
}

proof fn lemma_join_space_last(ps: Seq<Seq<char>>)
    requires
        ps.len() > 0,
    ensures
        join_space(ps).len() >= ps.last().len(),
{
}

proof fn lemma_flush_well_begun(st: Blocks)
    requires
        well_begun(st),
    ensures
        well_begun(flush(st)),
        flush(st).para.len() == 0,
        begun(st) ==> flush(st).out.len() > 0,
        st.out.len() > 0 ==> flush(st).out.len() > 0,
        flush(st).list == st.list,
        flush(st).fence == st.fence,
{
    if st.para.len() > 0 {
        reveal_strlit("<p>");
        reveal_strlit("</p>\n");
        let j = join_space(st.para);
        lemma_join_space_last(st.para);
        assert(st.para.last().len() > 0) by {
            assert(st.para[st.para.len() - 1].len() > 0);
        }
        lemma_inline_md_len(j);
        let piece = "<p>"@ + inline_md(j) + "</p>\n"@;
        assert(st.out + "<p>"@ + inline_md(j) + "</p>\n"@ =~= st.out + piece);
        lemma_emit_well_begun(st, piece);
        assert(flush(st).out == emit(st, piece).out);
    }
}

proof fn lemma_close_well_begun(st: Blocks)
    requires
        well_begun(st),
    ensures
        well_begun(list_closed(st)),
        list_closed(st).para == st.para,
        list_closed(st).fence == st.fence,
        st.out.len() > 0 ==> list_closed(st).out.len() > 0,
{
    match st.list {
        Some(ListKind::Ordered) => lemma_set_apart_append(st.out, "</ol>\n"@),
        Some(ListKind::Unordered) => lemma_set_apart_append(st.out, "</ul>\n"@),
        None => {},
    }
}

proof fn lemma_open_well_begun(st: Blocks, kind: ListKind)
    requires
        well_begun(st),
    ensures
        well_begun(list_opened(st, kind)),
        list_opened(st, kind).out.len() > 0,
        list_opened(st, kind).para == st.para,
        list_opened(st, kind).fence == st.fence,
{
    reveal_strlit("<ol>\n");
    reveal_strlit("<ul>\n");
    if st.list != Some(kind) {
        lemma_close_well_begun(st);
        let c = list_closed(st);
        match kind {
            ListKind::Ordered => lemma_set_apart_append(c.out, "<ol>\n"@),
            ListKind::Unordered => lemma_set_apart_append(c.out, "<ul>\n"@),
        }
    }
}

/// Closing the gathered paragraph and the open list before a block.
proof fn lemma_before_block(st: Blocks)
    requires
        well_begun(st),
    ensures
        well_begun(list_closed(flush(st))),
        begun(st) ==> list_closed(flush(st)).out.len() > 0,
        list_closed(flush(st)).para.len() == 0,
        list_closed(flush(st)).fence == st.fence,
{
    lemma_flush_well_begun(st);
    lemma_close_well_begun(flush(st));
}

/// One line keeps the renderer's state well begun; once something has been
/// seen it stays seen, and a line that is not blank is seen.
proof fn lemma_step_well_begun(st: Blocks, raw: Seq<char>)
    requires
        well_begun(st),
    ensures
        well_begun(step(st, raw)),
        begun(st) ==> begun(step(st, raw)),
        trim(trim_end_cr(raw)).len() > 0 ==> begun(step(st, raw)),
{
    reveal_strlit("</code></pre>\n");
    reveal_strlit("<pre><code>");
    reveal_strlit("<pre><code class=\"language-");
    reveal_strlit("<h");
    reveal_strlit("<blockquote><p>");
    let line = trim_end_cr(raw);
    let t = trim(line);
    if st.fence {
        if starts_with(t, fence_marker()) {
            lemma_set_apart_append(st.out, "</code></pre>\n"@);
        } else {
            lemma_emit_well_begun(st, escape(line) + seq!['\n']);
        }
    } else if starts_with(t, fence_marker()) {
        lemma_before_block(st);
        let b = list_closed(flush(st));
        let code = open_code(trim(t.skip(3)));
        assert(code.len() >= 9);
        lemma_emit_well_begun(b, code);
        assert(step(st, raw) == (Blocks { fence: true, ..emit(b, code) }));
    } else if t.len() == 0 {
        lemma_before_block(st);
    } else if heading_parts(t) is Some {
        lemma_before_block(st);
        let (level, text) = heading_parts(t)->0;
        let h = heading_html(level, text);
        assert(h[1] == 'h');
        lemma_emit_well_begun(list_closed(flush(st)), h);
    } else if strip_prefix(t, seq!['>', ' ']) is Some {
        lemma_before_block(st);
        let q = "<blockquote><p>"@ + inline_md(strip_prefix(t, seq!['>', ' '])->0)
            + "</p></blockquote>\n"@;
        lemma_emit_well_begun(list_closed(flush(st)), q);
    } else if unordered_item(t) is Some {
        lemma_flush_well_begun(st);
        lemma_open_well_begun(flush(st), ListKind::Unordered);
        lemma_emit_well_begun(
            list_opened(flush(st), ListKind::Unordered),
            "<li>"@ + inline_md(unordered_item(t)->0) + "</li>\n"@,
        );
    } else if ordered_item(t) is Some {
        lemma_flush_well_begun(st);
        lemma_open_well_begun(flush(st), ListKind::Ordered);
        lemma_emit_well_begun(
            list_opened(flush(st), ListKind::Ordered),
            "<li>"@ + inline_md(ordered_item(t)->0) + "</li>\n"@,
        );
    } else {
        lemma_close_well_begun(st);
        let b = list_closed(st);
        let n = step(st, raw);
        assert(n.para == b.para.push(t));
        assert forall|j: int| 0 <= j < n.para.len() implies (#[trigger] n.para[j]).len() > 0 by {
            if j < b.para.len() {
                assert(n.para[j] == b.para[j]);
            }
        }
    }
}

proof fn lemma_run_well_begun(st: Blocks, lines: Seq<Seq<char>>)
    requires
        well_begun(st),
    ensures
        well_begun(run(st, lines)),
        begun(st) ==> begun(run(st, lines)),
        (exists|j: int| 0 <= j < lines.len() && trim(trim_end_cr(#[trigger] lines[j])).len() > 0)
            ==> begun(run(st, lines)),
    decreases lines.len(),
{
    if lines.len() > 0 {
        lemma_step_well_begun(st, lines[0]);
        let rest = lines.drop_first();
        lemma_run_well_begun(step(st, lines[0]), rest);
        if exists|j: int| 0 <= j < lines.len() && trim(trim_end_cr(#[trigger] lines[j])).len() > 0 {
            let j = choose|j: int| 0 <= j < lines.len() && trim(trim_end_cr(#[trigger] lines[j])).len() > 0;
            if j > 0 {
                assert(rest[j - 1] == lines[j]);
            }
        }
    }
}

proof fn lemma_finish_not_empty_paragraph(st: Blocks)
    requires
        well_begun(st),
        begun(st),
    ensures
        finish(st) != "<p></p>\n"@,
{
    reveal_strlit("<p></p>\n");
    reveal_strlit("</code></pre>\n");
    let a = if st.fence {
        emit(st, "</code></pre>\n"@)
    } else {
        st
    };
    if st.fence {
        lemma_emit_well_begun(st, "</code></pre>\n"@);
    }
    lemma_before_block(a);
    let b = list_closed(flush(a));
    let t = "<p></p>\n"@;
    if b.out.len() < 9 && b.out.len() >= 3 {
        if b.out == t {
            assert(b.out[1] == t[1]);
            assert(b.out[2] == t[2]);
        }
    }
}

proof fn lemma_all_ws_trim_end_cr(l: Seq<char>)
    requires
        all_ws(trim_end_cr(l)),
    ensures
        all_ws(l),
    decreases l.len(),
{
    if l.len() > 0 && l.last() == '\r' {
        let d = l.drop_last();
        lemma_all_ws_trim_end_cr(d);
        assert forall|i: int| 0 <= i < l.len() implies is_ws(#[trigger] l[i]) by {
            if i < d.len() {
                assert(l[i] == d[i]);
            }
        }
    }
}

proof fn lemma_lines_all_ws(s: Seq<char>)
    requires
        forall|j: int| 0 <= j < split_lines(s).len() ==> all_ws(#[trigger] split_lines(s)[j]),
    ensures
        all_ws(s),
    decreases s.len(),
{
    if s.len() > 0 {
        lemma_find_from(s, seq!['\n'], 0);
        match find(s, seq!['\n']) {
            None => {
                assert(all_ws(split_lines(s)[0]));
            },
            Some(i) => {
                let head = s.take(i as int);
                let tail = s.skip(i as int + 1);
                let ls = split_lines(s);
                assert(ls == seq![head] + split_lines(tail));
                assert(all_ws(ls[0]));
                assert forall|j: int| 0 <= j < split_lines(tail).len() implies all_ws(
                    #[trigger] split_lines(tail)[j],
                ) by {
                    assert(ls[j + 1] == split_lines(tail)[j]);
                }
                lemma_lines_all_ws(tail);
                assert(s[i as int] == '\n') by {
                    assert(s[i as int + 0] == seq!['\n'][0]);
                }
                assert forall|k: int| 0 <= k < s.len() implies is_ws(#[trigger] s[k]) by {
                    if k < i {
                        assert(s[k] == head[k]);
                    } else if k > i {
                        assert(s[k] == tail[k - i - 1]);
                    }
                }
            },
        }
    }
}

/// Exactly the texts that are empty or only whitespace render as one empty
/// paragraph.
pub proof fn lemma_empty_paragraph_iff_blank(s: Seq<char>)
    ensures
        (markdown_html(s) == "<p></p>\n"@) <==> all_ws(s),
{
    if all_ws(s) {
        lemma_blank_markdown(s);
    } else {
        let ls = split_lines(s);
        if forall|j: int| 0 <= j < ls.len() ==> trim(trim_end_cr(#[trigger] ls[j])).len() == 0 {
            assert forall|j: int| 0 <= j < ls.len() implies all_ws(#[trigger] ls[j]) by {
                lemma_trim_empty(trim_end_cr(ls[j]));
                lemma_all_ws_trim_end_cr(ls[j]);
            }
            lemma_lines_all_ws(s);
        }
        let st0 = initial_blocks();
        assert(well_begun(st0));
        lemma_run_well_begun(st0, ls);
        lemma_finish_not_empty_paragraph(run(st0, ls));
    }
}

/// The tags that Markdown rendering writes: the inline tags, then the block
/// tags.
pub open spec fn block_tags() -> Seq<Seq<char>> {
    inline_tags() + seq![
        "<p>"@,
        "</p>"@,
        "<blockquote>"@,
        "</blockquote>"@,
        "<ul>"@,
        "</ul>"@,
        "<ol>"@,
        "</ol>"@,
        "<li>"@,
        "</li>"@,
        "<pre>"@,
        "</pre>"@,
        "<code class=\"language-"@,
        "<h1>"@,
        "<h2>"@,
        "<h3>"@,
        "<h4>"@,
        "<h5>"@,
        "<h6>"@,
        "</h1>"@,
        "</h2>"@,
        "</h3>"@,
        "</h4>"@,
        "</h5>"@,
        "</h6>"@,
    ]
}

/// Every `<` in `x` begins one of the renderer's tags.
pub open spec fn own_markup(x: Seq<char>) -> bool {
    lt_only_in_tags(x, block_tags())
}

proof fn lemma_block_tags_plain()
    ensures
        plain_tags(block_tags(), '\n'),
        block_tags().len() == 31,
{
    reveal_strlit("<code>");
    reveal_strlit("</code>");
    reveal_strlit("<strong>");
    reveal_strlit("</strong>");
    reveal_strlit("<em>");
    reveal_strlit("</em>");
    reveal_strlit("<p>");
    reveal_strlit("</p>");
    reveal_strlit("<blockquote>");
    reveal_strlit("</blockquote>");
    reveal_strlit("<ul>");
    reveal_strlit("</ul>");
    reveal_strlit("<ol>");
    reveal_strlit("</ol>");
    reveal_strlit("<li>");
    reveal_strlit("</li>");
    reveal_strlit("<pre>");
    reveal_strlit("</pre>");
    reveal_strlit("<code class=\"language-");
    reveal_strlit("<h1>");
    reveal_strlit("<h2>");
    reveal_strlit("<h3>");
    reveal_strlit("<h4>");
    reveal_strlit("<h5>");
    reveal_strlit("<h6>");
    reveal_strlit("</h1>");
    reveal_strlit("</h2>");
    reveal_strlit("</h3>");
    reveal_strlit("</h4>");
    reveal_strlit("</h5>");
    reveal_strlit("</h6>");
    let t = block_tags();
    assert forall|j: int, q: int| 0 <= j < t.len() && 0 <= q < t[j].len() implies #[trigger] t[j][q]
        != '\n' && (t[j][q] == '<' <==> q == 0) by {
        if j < 6 {
            assert(t[j] == inline_tags()[j]);
        }
    }
}

/// Markup with the inline tags only is markup with the renderer's tags.
proof fn lemma_inline_own(x: Seq<char>)
    requires
        lt_only_in_tags(x, inline_tags()),
    ensures
        own_markup(x),
{
    let t = block_tags();
    assert forall|i: int| 0 <= i < x.len() && #[trigger] x[i] == '<' implies exists|j: int|
        0 <= j < t.len() && matches_at(x, #[trigger] t[j], i) by {
        let j = choose|j: int| 0 <= j < inline_tags().len() && matches_at(x, #[trigger] inline_tags()[j], i);
        assert(t[j] == inline_tags()[j]);
    }
}

/// `x` followed by `y`, both written with the renderer's tags.
proof fn lemma_own_append(x: Seq<char>, y: Seq<char>)
    requires
        own_markup(x),
        own_markup(y),
    ensures
        own_markup(x + y),
{
    lemma_lt_only_append(x, y, block_tags());
}

proof fn lemma_own_tag(j: int)
    requires
        0 <= j < 31,
    ensures
        own_markup(block_tags()[j]),
{
    lemma_block_tags_plain();
    lemma_tag_lt_only(block_tags(), j, '\n');
}

proof fn lemma_own_plain(x: Seq<char>)
    requires
        no_lt(x),
    ensures
        own_markup(x),
{
    lemma_no_lt_only(x, block_tags());
}

/// The fixed pieces of block markup are written with the renderer's tags.
proof fn lemma_own_literals()
    ensures
        own_markup("<p>"@),
        own_markup("</p>\n"@),
        own_markup("</code></pre>\n"@),
        own_markup("<pre><code>"@),
        own_markup("<pre><code class=\"language-"@),
        own_markup("\">"@),
        own_markup("<blockquote><p>"@),
        own_markup("</p></blockquote>\n"@),
        own_markup("<li>"@),
        own_markup("</li>\n"@),
        own_markup("<ul>\n"@),
        own_markup("<ol>\n"@),
        own_markup("</ul>\n"@),
        own_markup("</ol>\n"@),
        own_markup("<p></p>\n"@),
{
    let t = block_tags();
    let nl = seq!['\n'];
    lemma_block_tags_plain();
    lemma_own_plain(nl);
    reveal_strlit("<p>");
    reveal_strlit("</p>\n");
    reveal_strlit("</code></pre>\n");
    reveal_strlit("<pre><code>");
    reveal_strlit("<pre><code class=\"language-");
    reveal_strlit("\">");
    reveal_strlit("<blockquote><p>");
    reveal_strlit("</p></blockquote>\n");
    reveal_strlit("<li>");
    reveal_strlit("</li>\n");
    reveal_strlit("<ul>\n");
    reveal_strlit("<ol>\n");
    reveal_strlit("</ul>\n");
    reveal_strlit("</ol>\n");
    reveal_strlit("<p></p>\n");
    reveal_strlit("<code>");
    reveal_strlit("</code>");
    reveal_strlit("</p>");
    reveal_strlit("<blockquote>");
    reveal_strlit("</blockquote>");
    reveal_strlit("<ul>");
    reveal_strlit("</ul>");
    reveal_strlit("<ol>");
    reveal_strlit("</ol>");
    reveal_strlit("<li>");
    reveal_strlit("</li>");
    reveal_strlit("<pre>");
    reveal_strlit("</pre>");
    reveal_strlit("<code class=\"language-");
    lemma_own_tag(0);
    lemma_own_tag(1);
    lemma_own_tag(6);
    lemma_own_tag(7);
    lemma_own_tag(8);
    lemma_own_tag(9);
    lemma_own_tag(10);
    lemma_own_tag(11);
    lemma_own_tag(12);
    lemma_own_tag(13);
    lemma_own_tag(14);
    lemma_own_tag(15);
    lemma_own_tag(16);
    lemma_own_tag(17);
    lemma_own_tag(18);
    assert(t[0] == "<code>"@);
    assert(t[1] == "</code>"@);
    assert(t[6] =~= "<p>"@);
    lemma_own_append(t[7], nl);
    assert("</p>\n"@ =~= t[7] + nl);
    lemma_own_append(t[1], t[17]);
    lemma_own_append(t[1] + t[17], nl);
    assert("</code></pre>\n"@ =~= t[1] + t[17] + nl);
    lemma_own_append(t[16], t[0]);
    assert("<pre><code>"@ =~= t[16] + t[0]);
    lemma_own_append(t[16], t[18]);
    assert("<pre><code class=\"language-"@ =~= t[16] + t[18]);
    lemma_own_plain("\">"@);
    lemma_own_append(t[8], t[6]);
    assert("<blockquote><p>"@ =~= t[8] + t[6]);
    lemma_own_append(t[7], t[9]);
    lemma_own_append(t[7] + t[9], nl);
    assert("</p></blockquote>\n"@ =~= t[7] + t[9] + nl);
    assert("<li>"@ =~= t[14]);
    lemma_own_append(t[15], nl);
    assert("</li>\n"@ =~= t[15] + nl);
    lemma_own_append(t[10], nl);
    assert("<ul>\n"@ =~= t[10] + nl);
    lemma_own_append(t[12], nl);
    assert("<ol>\n"@ =~= t[12] + nl);
    lemma_own_append(t[11], nl);
    assert("</ul>\n"@ =~= t[11] + nl);
    lemma_own_append(t[13], nl);
    assert("</ol>\n"@ =~= t[13] + nl);
    lemma_own_append(t[6], t[7]);
    lemma_own_append(t[6] + t[7], nl);
    assert("<p></p>\n"@ =~= t[6] + t[7] + nl);
}

proof fn lemma_own_inline(x: Seq<char>)
    ensures
        own_markup(inline_md(x)),
{
    lemma_inline_only_own_tags(x);
    lemma_inline_own(inline_md(x));
}

proof fn lemma_own_escaped(x: Seq<char>)
    ensures
        own_markup(escape(x)),
{
    lemma_escape_has_no_markup(x);
    lemma_own_plain(escape(x));
}

proof fn lemma_own_wrap(open: Seq<char>, x: Seq<char>, close: Seq<char>)
    requires
        own_markup(open),
        own_markup(x),
        own_markup(close),
    ensures
        own_markup(open + x + close),
{
    lemma_own_append(open, x);
    lemma_own_append(open + x, close);
}

proof fn lemma_own_heading(level: nat, text: Seq<char>)
    requires
        1 <= level <= 6,
    ensures
        own_markup(heading_html(level, text)),
{
    reveal_strlit("<h");
    reveal_strlit(">");
    reveal_strlit("</h");
    reveal_strlit(">\n");
    reveal_strlit("<h1>");
    reveal_strlit("<h2>");
    reveal_strlit("<h3>");
    reveal_strlit("<h4>");
    reveal_strlit("<h5>");
    reveal_strlit("<h6>");
    reveal_strlit("</h1>");
    reveal_strlit("</h2>");
    reveal_strlit("</h3>");
    reveal_strlit("</h4>");
    reveal_strlit("</h5>");
    reveal_strlit("</h6>");
    let t = block_tags();
    let nl = seq!['\n'];
    let d = level_digit(level);
    let open = "<h"@ + seq![d] + ">"@;
    let close = "</h"@ + seq![d] + ">\n"@;
    let jo = 18 + level as int;
    let jc = 24 + level as int;
    lemma_own_tag(jo);
    lemma_own_tag(jc);
    assert(open =~= t[jo]);
    lemma_own_plain(nl);
    lemma_own_append(t[jc], nl);
    assert(close =~= t[jc] + nl);
    lemma_own_inline(text);
    lemma_own_wrap(open, inline_md(text), close);
    assert(heading_html(level, text) =~= open + inline_md(text) + close);
}

proof fn lemma_own_open_code(lang: Seq<char>)
    ensures
        own_markup(open_code(lang)),
{
    lemma_own_literals();
    if lang.len() > 0 {
        lemma_own_escaped(lang);
        lemma_own_wrap("<pre><code class=\"language-"@, escape(lang), "\">"@);
    }
}

proof fn lemma_own_flush(st: Blocks)
    requires
        own_markup(st.out),
    ensures
        own_markup(flush(st).out),
{
    if st.para.len() > 0 {
        lemma_own_literals();
        lemma_own_inline(join_space(st.para));
        let piece = "<p>"@ + inline_md(join_space(st.para)) + "</p>\n"@;
        lemma_own_wrap("<p>"@, inline_md(join_space(st.para)), "</p>\n"@);
        lemma_own_append(st.out, piece);
        assert(flush(st).out =~= st.out + piece);
    }
}

proof fn lemma_own_close(st: Blocks)
    requires
        own_markup(st.out),
    ensures
        own_markup(list_closed(st).out),
{
    lemma_own_literals();
    match st.list {
        Some(ListKind::Ordered) => lemma_own_append(st.out, "</ol>\n"@),
        Some(ListKind::Unordered) => lemma_own_append(st.out, "</ul>\n"@),
        None => {},
    }
}

proof fn lemma_own_open(st: Blocks, kind: ListKind)
    requires
        own_markup(st.out),
    ensures
        own_markup(list_opened(st, kind).out),
{
    lemma_own_literals();
    if st.list != Some(kind) {
        lemma_own_close(st);
        match kind {
            ListKind::Ordered => lemma_own_append(list_closed(st).out, "<ol>\n"@),
            ListKind::Unordered => lemma_own_append(list_closed(st).out, "<ul>\n"@),
        }
    }
}

proof fn lemma_own_step(st: Blocks, raw: Seq<char>)
    requires
        own_markup(st.out),
    ensures
        own_markup(step(st, raw).out),
{
    lemma_own_literals();
    let line = trim_end_cr(raw);
    let t = trim(line);
    if st.fence {
        if starts_with(t, fence_marker()) {
            lemma_own_append(st.out, "</code></pre>\n"@);
        } else {
            lemma_own_escaped(line);
            lemma_own_plain(seq!['\n']);
            lemma_own_append(escape(line), seq!['\n']);
            lemma_own_append(st.out, escape(line) + seq!['\n']);
        }
    } else if starts_with(t, fence_marker()) {
        lemma_own_flush(st);
        lemma_own_close(flush(st));
        lemma_own_open_code(trim(t.skip(3)));
        lemma_own_append(list_closed(flush(st)).out, open_code(trim(t.skip(3))));
    } else if t.len() == 0 {
        lemma_own_flush(st);
        lemma_own_close(flush(st));
    } else if heading_parts(t) is Some {
        lemma_own_flush(st);
        lemma_own_close(flush(st));
        let (level, text) = heading_parts(t)->0;
        lemma_own_heading(level, text);
        lemma_own_append(list_closed(flush(st)).out, heading_html(level, text));
    } else if strip_prefix(t, seq!['>', ' ']) is Some {
        lemma_own_flush(st);
        lemma_own_close(flush(st));
        let text = strip_prefix(t, seq!['>', ' '])->0;
        lemma_own_inline(text);
        lemma_own_wrap("<blockquote><p>"@, inline_md(text), "</p></blockquote>\n"@);
        lemma_own_append(
            list_closed(flush(st)).out,
            "<blockquote><p>"@ + inline_md(text) + "</p></blockquote>\n"@,
        );
    } else if unordered_item(t) is Some {
        lemma_own_flush(st);
        lemma_own_open(flush(st), ListKind::Unordered);
        let text = unordered_item(t)->0;
        lemma_own_inline(text);
        lemma_own_wrap("<li>"@, inline_md(text), "</li>\n"@);
        lemma_own_append(
            list_opened(flush(st), ListKind::Unordered).out,
            "<li>"@ + inline_md(text) + "</li>\n"@,
        );
    } else if ordered_item(t) is Some {
        lemma_own_flush(st);
        lemma_own_open(flush(st), ListKind::Ordered);
        let text = ordered_item(t)->0;
        lemma_own_inline(text);
        lemma_own_wrap("<li>"@, inline_md(text), "</li>\n"@);
        lemma_own_append(
            list_opened(flush(st), ListKind::Ordered).out,
            "<li>"@ + inline_md(text) + "</li>\n"@,
        );
    } else {
        lemma_own_close(st);
    }
}

proof fn lemma_own_run(st: Blocks, lines: Seq<Seq<char>>)
    requires
        own_markup(st.out),
    ensures
        own_markup(run(st, lines).out),
    decreases lines.len(),
{
    if lines.len() > 0 {
        lemma_own_step(st, lines[0]);
        lemma_own_run(step(st, lines[0]), lines.drop_first());
    }
}

/// Rendered Markdown holds no markup but the renderer's own: every `<` in it
/// begins one of its paragraph, heading, quote, list, code, strong or em tags,
/// so no markup of the source reaches the HTML.
pub proof fn lemma_markdown_only_own_tags(s: Seq<char>)
    ensures
        own_markup(markdown_html(s)),
{
    lemma_own_literals();
    let st = run(initial_blocks(), split_lines(s));
    assert(own_markup(initial_blocks().out));
    lemma_own_run(initial_blocks(), split_lines(s));
    let a = if st.fence {
        emit(st, "</code></pre>\n"@)
    } else {
        st
    };
    if st.fence {
        lemma_own_append(st.out, "</code></pre>\n"@);
    }
    lemma_own_flush(a);
    lemma_own_close(flush(a));
}

// ---------------------------------------------------------------------------
// Executable renderer
// ---------------------------------------------------------------------------

/// The renderer's state between two lines.
pub struct BlockWriter {
    pub out: String,
    pub para: Vec<Vec<char>>,
    pub list: Option<ListKind>,
    pub fence: bool,
}

impl View for BlockWriter {
    type V = Blocks;

    open spec fn view(&self) -> Blocks {
        Blocks {
            out: self.out@,
            para: self.para@.map_values(|v: Vec<char>| v@),
            list: self.list,
            fence: self.fence,
        }
    }
}

/// The lines of a paragraph joined with single spaces.
fn join_lines(para: &Vec<Vec<char>>) -> (r: Vec<char>)
    ensures
        r@ == join_space(para@.map_values(|v: Vec<char>| v@)),
{
    let ghost ps = para@.map_values(|v: Vec<char>| v@);
    let mut r: Vec<char> = Vec::new();
    let mut i: usize = 0;
    while i < para.len()
        invariant
            i <= para.len(),
            ps == para@.map_values(|v: Vec<char>| v@),
            r@ == join_space(ps.take(i as int)),
        decreases para.len() - i,
    {
        let piece = &para[i];
        proof {
            let t = ps.take(i + 1);
            assert(t.drop_last() =~= ps.take(i as int));
            assert(t.last() == piece@);
        }
        if i > 0 {
            r.push(' ');
        }
        let mut k: usize = 0;
        let ghost base = r@;
        while k < piece.len()
            invariant
                k <= piece.len(),
                r@ == base + piece@.take(k as int),
            decreases piece.len() - k,
        {
            r.push(piece[k]);
            assert(piece@.take(k + 1) =~= piece@.take(k as int).push(piece@[k as int]));
            k = k + 1;
        }
        proof {
            assert(piece@.take(piece.len() as int) =~= piece@);
            if i == 0 {
                assert(ps.take(1) =~= seq![piece@]);
                assert(r@ =~= piece@);
            }
        }
        i = i + 1;
    }
    assert(ps.take(para.len() as int) =~= ps);
    r
}

/// Writes out the gathered paragraph, if any.
fn flush_paragraph(w: &mut BlockWriter)
    ensures
        final(w)@ == flush(old(w)@),
{
    if w.para.len() == 0 {
        assert(old(w)@.para =~= Seq::<Seq<char>>::empty());
        return;
    }
    let joined = join_lines(&w.para);
    let rendered = render_inline_markdown(&joined);
    w.out.append("<p>");
    w.out.append(rendered.as_str());
    w.out.append("</p>\n");
    w.para = Vec::new();
    assert(w@ =~= flush(old(w)@));
}

/// Closes the open list, if any.
fn close_list(w: &mut BlockWriter)
    ensures
        final(w)@ == list_closed(old(w)@),
{
    match w.list {
        Some(ListKind::Ordered) => w.out.append("</ol>\n"),
        Some(ListKind::Unordered) => w.out.append("</ul>\n"),
        None => {},
    }
    w.list = None;
    assert(w@ =~= list_closed(old(w)@));
}

/// Makes a list of kind `kind` the open one.
fn open_list(w: &mut BlockWriter, kind: ListKind)
    ensures
        final(w)@ == list_opened(old(w)@, kind),
{
    let same = match (w.list, kind) {
        (Some(ListKind::Ordered), ListKind::Ordered) => true,
        (Some(ListKind::Unordered), ListKind::Unordered) => true,
        _ => false,
    };
    if same {
        return;
    }
    close_list(w);
    match kind {
        ListKind::Ordered => w.out.append("<ol>\n"),
        ListKind::Unordered => w.out.append("<ul>\n"),
    }
    w.list = Some(kind);
    assert(w@ =~= list_opened(old(w)@, kind));
}

/// The heading level and text of a (trimmed) line, when it is a heading.
pub fn heading(line: &Vec<char>) -> (r: Option<(usize, Vec<char>)>)
    ensures
        match r {
            Some((level, text)) => heading_parts(line@) == Some((level as nat, text@)),
            None => heading_parts(line@) is None,
        },
{
    let mut level: usize = 0;
    assert(line@.skip(0) =~= line@);
    while level < line.len() && line[level] == '#'
        invariant
            level <= line.len(),
            leading_count(line@, '#') == level + leading_count(line@.skip(level as int), '#'),
        decreases line.len() - level,
    {
        proof {
            let t = line@.skip(level as int);
            assert(t.drop_first() =~= line@.skip(level + 1));
        }
        level = level + 1;
    }
    proof {
        let t = line@.skip(level as int);
        if t.len() > 0 {
            assert(t[0] == line@[level as int]);
        }
    }
    if level < 1 || level > 6 {
        return None;
    }
    if level < line.len() && line[level] == ' ' {
        let rest = slice_chars(line, level + 1, line.len());
        assert(rest@ =~= line@.skip(level + 1));
        let text = trim_chars(&rest);
        Some((level, text))
    } else {
        None
    }
}

/// The text of an unordered list item, when the line is one.
pub fn unordered_list_item(line: &Vec<char>) -> (r: Option<Vec<char>>)
    ensures
        match r {
            Some(text) => unordered_item(line@) == Some(text@),
            None => unordered_item(line@) is None,
        },
{
    let dash = vec!['-', ' '];
    let star = vec!['*', ' '];
    let plus = vec!['+', ' '];
    assert(dash@ =~= seq!['-', ' ']);
    assert(star@ =~= seq!['*', ' ']);
    assert(plus@ =~= seq!['+', ' ']);
    if starts_with_exec(line, &dash) || starts_with_exec(line, &star) || starts_with_exec(
        line,
        &plus,
    ) {
        let text = slice_chars(line, 2, line.len());
        assert(text@ =~= line@.skip(2));
        Some(text)
    } else {
        None
    }
}

/// The text of an ordered list item, when the line is one.
pub fn ordered_list_item(line: &Vec<char>) -> (r: Option<Vec<char>>)
    ensures
        match r {
            Some(text) => ordered_item(line@) == Some(text@),
            None => ordered_item(line@) is None,
        },
{
    let mut d: usize = 0;
    assert(line@.skip(0) =~= line@);
    while d < line.len() && '0' <= line[d] && line[d] <= '9'
        invariant
            d <= line.len(),
            leading_digits(line@) == d + leading_digits(line@.skip(d as int)),
        decreases line.len() - d,
    {
        proof {
            let t = line@.skip(d as int);
            assert(t.drop_first() =~= line@.skip(d + 1));
        }
        d = d + 1;
    }
    proof {
        let t = line@.skip(d as int);
        if t.len() > 0 {
            assert(t[0] == line@[d as int]);
        }
    }
    if d == 0 {
        return None;
    }
    let rest = slice_chars(line, d, line.len());
    assert(rest@ =~= line@.skip(d as int));
    let dot = vec!['.', ' '];
    assert(dot@ =~= seq!['.', ' ']);
    if starts_with_exec(&rest, &dot) {
        let text = slice_chars(&rest, 2, rest.len());
        assert(text@ =~= rest@.skip(2));
        Some(text)
    } else {
        None
    }
}

/// Appends `piece` to the HTML written so far.
fn emit_str(w: &mut BlockWriter, piece: &str)
    ensures
        final(w)@ == emit(old(w)@, piece@),
{
    w.out.append(piece);
    assert(w@ =~= emit(old(w)@, piece@));
}

/// Writes an inline-rendered element: `open`, the rendered `text`, `close`.
fn emit_inline(w: &mut BlockWriter, open: &str, text: &Vec<char>, close: &str)
    ensures
        final(w)@ == emit(old(w)@, open@ + inline_md(text@) + close@),
{
    let rendered = render_inline_markdown(text);
    w.out.append(open);
    w.out.append(rendered.as_str());
    w.out.append(close);
    assert(w@ =~= emit(old(w)@, open@ + inline_md(text@) + close@));
}

/// The digit that names heading level `level`.
fn level_char(level: usize) -> (c: char)
    requires
        1 <= level <= 6,
    ensures
        c == level_digit(level as nat),
{
    if level == 1 {
        '1'
    } else if level == 2 {
        '2'
    } else if level == 3 {
        '3'
    } else if level == 4 {
        '4'
    } else if level == 5 {
        '5'
    } else {
        '6'
    }
}

/// Processes one line of the text.
#[verifier::spinoff_prover]
#[verifier::rlimit(40)]
fn render_line(w: &mut BlockWriter, raw: &Vec<char>)
    ensures
        final(w)@ == step(old(w)@, raw@),
{
    let line = trim_end_cr_chars(raw);
    let trimmed = trim_chars(&line);
    let fence = vec!['`', '`', '`'];
    assert(fence@ =~= fence_marker());
    let ghost st = w@;
    if w.fence {
        if starts_with_exec(&trimmed, &fence) {
            w.out.append("</code></pre>\n");
            w.fence = false;
            assert(w@ =~= step(st, raw@));
        } else {
            let escaped = escape_chars(&line);
            w.out.append(escaped.as_str());
            w.out.push('\n');
            assert(w@ =~= step(st, raw@));
        }
        return;
    }
    if starts_with_exec(&trimmed, &fence) {
        flush_paragraph(w);
        close_list(w);
        let rest = slice_chars(&trimmed, 3, trimmed.len());
        assert(rest@ =~= trimmed@.skip(3));
        let lang = trim_chars(&rest);
        if lang.len() == 0 {
            w.out.append("<pre><code>");
        } else {
            let escaped = escape_chars(&lang);
            w.out.append("<pre><code class=\"language-");
            w.out.append(escaped.as_str());
            w.out.append("\">");
        }
        w.fence = true;
        assert(w@ =~= step(st, raw@));
        return;
    }
    if trimmed.len() == 0 {
        flush_paragraph(w);
        close_list(w);
        return;
    }
    if let Some((level, text)) = heading(&trimmed) {
        flush_paragraph(w);
        close_list(w);
        let d = level_char(level);
        let rendered = render_inline_markdown(&text);
        w.out.append("<h");
        w.out.push(d);
        w.out.append(">");
        w.out.append(rendered.as_str());
        w.out.append("</h");
        w.out.push(d);
        w.out.append(">\n");
        assert(w@ =~= step(st, raw@));
        return;
    }
    let quote = vec!['>', ' '];
    assert(quote@ =~= seq!['>', ' ']);
    if starts_with_exec(&trimmed, &quote) {
        let text = slice_chars(&trimmed, 2, trimmed.len());
        assert(text@ =~= trimmed@.skip(2));
        flush_paragraph(w);
        close_list(w);
        emit_inline(w, "<blockquote><p>", &text, "</p></blockquote>\n");
        return;
    }
    if let Some(text) = unordered_list_item(&trimmed) {
        flush_paragraph(w);
        open_list(w, ListKind::Unordered);
        emit_inline(w, "<li>", &text, "</li>\n");
        return;
    }
    if let Some(text) = ordered_list_item(&trimmed) {
        flush_paragraph(w);
        open_list(w, ListKind::Ordered);
        emit_inline(w, "<li>", &text, "</li>\n");
        return;
    }
    close_list(w);
    w.para.push(trimmed);
    assert(w@ =~= step(st, raw@));
}

/// Renders Markdown text as HTML: ATX headings, `>` quotes, `-`/`*`/`+` and
/// numbered lists, fenced code blocks and paragraphs, with code spans and
/// emphasis inside them. Text that renders to nothing gives an empty paragraph.
pub fn markdown_to_html(source: &str) -> (r: String)
    ensures
        r@ == markdown_html(source@),
{
    let cs = chars_of(source);
    let lines = split_lines_exec(&cs);
    let ghost ls = split_lines(source@);
    let mut w = BlockWriter { out: String::new(), para: Vec::new(), list: None, fence: false };
    assert(w@ =~= initial_blocks());
    let mut i: usize = 0;
    assert(ls.skip(0) =~= ls);
    while i < lines.len()
        invariant
            i <= lines.len(),
            lines@.len() == ls.len(),
            ls == split_lines(source@),
            forall|j: int| 0 <= j < lines@.len() ==> #[trigger] lines@[j]@ == ls[j],
            run(initial_blocks(), ls) == run(w@, ls.skip(i as int)),
        decreases lines.len() - i,
    {
        proof {
            let rest = ls.skip(i as int);
            assert(rest[0] == lines@[i as int]@);
            assert(rest.drop_first() =~= ls.skip(i + 1));
        }
        render_line(&mut w, &lines[i]);
        i = i + 1;
    }
    assert(ls.skip(lines.len() as int) =~= Seq::<Seq<char>>::empty());
    if w.fence {
        w.out.append("</code></pre>\n");
    }
    flush_paragraph(&mut w);
    close_list(&mut w);
    if w.out.as_str().is_empty() {
        return String::from_str("<p></p>\n");
    }
    w.out
}

} // verus!
