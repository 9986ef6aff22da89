//! How paragraphs and lists are gathered and ended: the lines of a paragraph
//! are joined, adjacent items share one list, and every other kind of line
//! writes the gathered paragraph out before its own HTML.
use vstd::prelude::*;
use crate::block::{
    emit, fence_marker, finish, flush, heading_parts, initial_blocks, lemma_split_first_line,
    list_closed, list_opened, markdown_html, ordered_item, run, step, strip_prefix,
    unordered_item, Blocks, ListKind,
};
use crate::inline::inline_md;
use crate::text::{find, join_space, lemma_find_from, split_lines, starts_with, trim, trim_end_cr};

verus! {

/// The text of a line: without its trailing carriage returns, trimmed.
pub open spec fn line_text(raw: Seq<char>) -> Seq<char> {
    trim(trim_end_cr(raw))
}

/// `s` holds no line feed.
pub open spec fn one_line(s: Seq<char>) -> bool {
    forall|k: int| 0 <= k < s.len() ==> #[trigger] s[k] != '\n'
}

/// A line whose text has a block marker: a code fence, a heading, a quote or a
/// list item.
pub open spec fn has_block_marker(raw: Seq<char>) -> bool {
    let t = line_text(raw);
    ||| starts_with(t, fence_marker())
    ||| heading_parts(t) is Some
    ||| strip_prefix(t, seq!['>', ' ']) is Some
    ||| unordered_item(t) is Some
    ||| ordered_item(t) is Some
}

/// A line of paragraph text: one line, not blank, with no block marker.
pub open spec fn is_paragraph_line(raw: Seq<char>) -> bool {
    &&& one_line(raw)
    &&& line_text(raw).len() > 0
    &&& !has_block_marker(raw)
}

/// The HTML of a paragraph holding `text`.
pub open spec fn paragraph_html(text: Seq<char>) -> Seq<char> {
    "<p>"@ + inline_md(text) + "</p>\n"@
}

/// Outside a code block, a blank line or a line with a block marker ends the
/// gathered paragraph before anything else: the line does what it would do
/// had the paragraph already been written out, and no line stays gathered.
pub proof fn lemma_block_line_ends_paragraph(st: Blocks, raw: Seq<char>)
    requires
        !st.fence,
        line_text(raw).len() == 0 || has_block_marker(raw),
    ensures
        step(st, raw) == step(flush(st), raw),
        step(st, raw).para.len() == 0,
{
    assert(flush(flush(st)) == flush(st));
}

/// Outside a code block, a line of paragraph text writes nothing but the end
/// of an open list, and is gathered after the lines gathered before it.
pub proof fn lemma_paragraph_line_is_gathered(st: Blocks, raw: Seq<char>)
    requires
        !st.fence,
        is_paragraph_line(raw),
    ensures
        step(st, raw) == (Blocks { para: st.para.push(line_text(raw)), ..list_closed(st) }),
{
}

/// A line with no line feed is the only line of its text.
proof fn lemma_split_one_line(l: Seq<char>)
    requires
        one_line(l),
        l.len() > 0,
    ensures
        split_lines(l) == seq![l],
{
    let nl = seq!['\n'];
    lemma_find_from(l, nl, 0);
    if find(l, nl) is Some {
        let q = find(l, nl)->0;
        assert(l[q as int + 0] == nl[0]);
    }
}

/// A line with some text is not empty.
proof fn lemma_line_text_nonempty(raw: Seq<char>)
    requires
        line_text(raw).len() > 0,
    ensures
        raw.len() > 0,
{
    if raw.len() == 0 {
        assert(trim_end_cr(raw) == raw);
        assert(line_text(raw) == raw);
    }
}

proof fn lemma_run_two(st: Blocks, x: Seq<char>, y: Seq<char>)
    ensures
        run(st, seq![x, y]) == step(step(st, x), y),
{
    let e = Seq::<Seq<char>>::empty();
    assert(seq![x, y].drop_first() =~= seq![y]);
    assert(seq![y].drop_first() =~= e);
    let st2 = step(step(st, x), y);
    assert(run(st2, e) == st2);
    assert(run(step(st, x), seq![y]) == run(st2, e));
}

proof fn lemma_run_three(st: Blocks, x: Seq<char>, y: Seq<char>, z: Seq<char>)
    ensures
        run(st, seq![x, y, z]) == step(step(step(st, x), y), z),
{
    assert(seq![x, y, z].drop_first() =~= seq![y, z]);
    lemma_run_two(step(st, x), y, z);
}

/// The state after a first line of paragraph text.
proof fn lemma_first_paragraph_line(a: Seq<char>)
    requires
        is_paragraph_line(a),
    ensures
        step(initial_blocks(), a) == (Blocks {
            out: seq![],
            para: seq![line_text(a)],
            list: None,
            fence: false,
        }),
{
    lemma_paragraph_line_is_gathered(initial_blocks(), a);
    assert(Seq::<Seq<char>>::empty().push(line_text(a)) =~= seq![line_text(a)]);
}

/// The lines of two lines with a blank line between them.
proof fn lemma_split_blank_between(a: Seq<char>, b: Seq<char>)
    requires
        one_line(a),
        one_line(b),
        b.len() > 0,
    ensures
        split_lines(a + seq!['\n', '\n'] + b) == seq![a, Seq::<char>::empty(), b],
{
    let e = Seq::<char>::empty();
    let nl = seq!['\n'];
    assert(a + seq!['\n', '\n'] + b =~= a + nl + (e + nl + b));
    assert(e + nl + b =~= nl + b);
    lemma_split_first_line(a, nl + b);
    lemma_split_first_line(e, b);
    lemma_split_one_line(b);
    assert(seq![a] + (seq![e] + seq![b]) =~= seq![a, e, b]);
}

/// A blank line after a gathered line writes its paragraph out.
proof fn lemma_blank_after_line(a: Seq<char>)
    requires
        is_paragraph_line(a),
    ensures
        step(step(initial_blocks(), a), Seq::<char>::empty()) == (Blocks {
            out: paragraph_html(line_text(a)),
            para: seq![],
            list: None,
            fence: false,
        }),
{
    let e = Seq::<char>::empty();
    lemma_first_paragraph_line(a);
    let st1 = step(initial_blocks(), a);
    assert(join_space(seq![line_text(a)]) == line_text(a));
    assert(trim_end_cr(e) == e);
    assert(line_text(e) == e);
    lemma_block_line_ends_paragraph(st1, e);
    assert(step(flush(st1), e) == flush(st1));
    assert(flush(st1).out =~= paragraph_html(line_text(a)));
}

/// Two lines of paragraph text with a blank line between them render as two
/// paragraphs, in their order.
#[verifier::spinoff_prover]
pub proof fn lemma_blank_line_separates_paragraphs(a: Seq<char>, b: Seq<char>)
    requires
        is_paragraph_line(a),
        is_paragraph_line(b),
    ensures
        markdown_html(a + seq!['\n', '\n'] + b) == paragraph_html(line_text(a)) + paragraph_html(
            line_text(b),
        ),
{
    reveal_strlit("<p>");
    let e = Seq::<char>::empty();
    lemma_line_text_nonempty(b);
    lemma_split_blank_between(a, b);
    lemma_run_three(initial_blocks(), a, e, b);
    lemma_blank_after_line(a);
    let st2 = step(step(initial_blocks(), a), e);
    lemma_paragraph_line_is_gathered(st2, b);
    let st3 = step(st2, b);
    assert(st3.para =~= seq![line_text(b)]);
    assert(join_space(seq![line_text(b)]) == line_text(b));
    assert(finish(st3) =~= paragraph_html(line_text(a)) + paragraph_html(line_text(b)));
}

/// Two adjacent lines of paragraph text make one paragraph, their texts
/// joined by a space.
pub proof fn lemma_adjacent_lines_join(a: Seq<char>, b: Seq<char>)
    requires
        is_paragraph_line(a),
        is_paragraph_line(b),
    ensures
        markdown_html(a + seq!['\n'] + b) == paragraph_html(
            line_text(a) + seq![' '] + line_text(b),
        ),
{
    reveal_strlit("<p>");
    lemma_line_text_nonempty(b);
    lemma_split_first_line(a, b);
    lemma_split_one_line(b);
    assert(split_lines(a + seq!['\n'] + b) =~= seq![a, b]);
    lemma_run_two(initial_blocks(), a, b);
    lemma_first_paragraph_line(a);
    let st1 = step(initial_blocks(), a);
    lemma_paragraph_line_is_gathered(st1, b);
    let st2 = step(st1, b);
    let ps = seq![line_text(a), line_text(b)];
    assert(st2.para =~= ps);
    assert(ps.drop_last() =~= seq![line_text(a)]);
    assert(join_space(ps) == line_text(a) + seq![' '] + line_text(b));
}

/// A line whose first character is not that of `p` does not begin with `p`.
proof fn lemma_other_first_char(t: Seq<char>, p: Seq<char>)
    requires
        t.len() > 0,
        p.len() > 0,
        t[0] != p[0],
    ensures
        !starts_with(t, p),
{
    if starts_with(t, p) {
        assert(t.take(p.len() as int)[0] == t[0]);
    }
}

/// An ordered list item has no other block marker.
proof fn lemma_ordered_item_only(raw: Seq<char>)
    requires
        ordered_item(line_text(raw)) is Some,
    ensures
        !starts_with(line_text(raw), fence_marker()),
        heading_parts(line_text(raw)) is None,
        strip_prefix(line_text(raw), seq!['>', ' ']) is None,
        unordered_item(line_text(raw)) is None,
        line_text(raw).len() > 0,
{
    let t = line_text(raw);
    assert(t.len() > 0 && '0' <= t[0] && t[0] <= '9');
    lemma_other_first_char(t, fence_marker());
    lemma_other_first_char(t, seq!['>', ' ']);
    lemma_other_first_char(t, seq!['-', ' ']);
    lemma_other_first_char(t, seq!['*', ' ']);
    lemma_other_first_char(t, seq!['+', ' ']);
}

/// A line of paragraph text followed by an ordered list item renders as the
/// paragraph, then the list holding the item: the paragraph is written
/// before the list opens.
pub proof fn lemma_paragraph_before_ordered_list(p: Seq<char>, l: Seq<char>)
    requires
        is_paragraph_line(p),
        one_line(l),
        ordered_item(line_text(l)) is Some,
    ensures
        markdown_html(p + seq!['\n'] + l) == paragraph_html(line_text(p)) + "<ol>\n"@ + "<li>"@
            + inline_md(ordered_item(line_text(l))->0) + "</li>\n"@ + "</ol>\n"@,
{
    reveal_strlit("<p>");
    lemma_ordered_item_only(l);
    lemma_line_text_nonempty(l);
    lemma_split_first_line(p, l);
    lemma_split_one_line(l);
    assert(split_lines(p + seq!['\n'] + l) =~= seq![p, l]);
    lemma_run_two(initial_blocks(), p, l);
    lemma_first_paragraph_line(p);
    let st1 = step(initial_blocks(), p);
    assert(join_space(seq![line_text(p)]) == line_text(p));
    let f = flush(st1);
    assert(f.out =~= paragraph_html(line_text(p)));
    let item = "<li>"@ + inline_md(ordered_item(line_text(l))->0) + "</li>\n"@;
    let st2 = step(st1, l);
    assert(st2 == emit(list_opened(f, ListKind::Ordered), item));
    assert(st2.out =~= paragraph_html(line_text(p)) + "<ol>\n"@ + item);
    assert(finish(st2) == list_closed(st2).out);
    assert(finish(st2) =~= paragraph_html(line_text(p)) + "<ol>\n"@ + "<li>"@ + inline_md(
        ordered_item(line_text(l))->0,
    ) + "</li>\n"@ + "</ol>\n"@);
}

/// Two adjacent ordered list items render as one list holding both, in their
/// order.
pub proof fn lemma_ordered_items_share_list(l1: Seq<char>, l2: Seq<char>)
    requires
        one_line(l1),
        one_line(l2),
        ordered_item(line_text(l1)) is Some,
        ordered_item(line_text(l2)) is Some,
    ensures
        markdown_html(l1 + seq!['\n'] + l2) == "<ol>\n"@ + "<li>"@ + inline_md(
            ordered_item(line_text(l1))->0,
        ) + "</li>\n"@ + "<li>"@ + inline_md(ordered_item(line_text(l2))->0) + "</li>\n"@
            + "</ol>\n"@,
{
    reveal_strlit("<ol>\n");
    lemma_ordered_item_only(l1);
    lemma_ordered_item_only(l2);
    lemma_line_text_nonempty(l2);
    lemma_split_first_line(l1, l2);
    lemma_split_one_line(l2);
    assert(split_lines(l1 + seq!['\n'] + l2) =~= seq![l1, l2]);
    lemma_run_two(initial_blocks(), l1, l2);
    let i1 = "<li>"@ + inline_md(ordered_item(line_text(l1))->0) + "</li>\n"@;
    let i2 = "<li>"@ + inline_md(ordered_item(line_text(l2))->0) + "</li>\n"@;
    let st1 = step(initial_blocks(), l1);
    assert(st1 == emit(list_opened(initial_blocks(), ListKind::Ordered), i1));
    assert(st1.out =~= "<ol>\n"@ + i1);
    assert(st1.list == Some(ListKind::Ordered));
    assert(st1.para.len() == 0);
    let st2 = step(st1, l2);
    assert(st2 == emit(list_opened(flush(st1), ListKind::Ordered), i2));
    assert(st2.out =~= "<ol>\n"@ + i1 + i2);
    assert(finish(st2) =~= "<ol>\n"@ + i1 + i2 + "</ol>\n"@);
}

/// Outside a code block, a line leaves a list open only when it is an item of
/// that list's kind: any other line closes the open list.
pub proof fn lemma_only_items_keep_a_list(st: Blocks, raw: Seq<char>)
    requires
        !st.fence,
    ensures
        step(st, raw).list == if starts_with(line_text(raw), fence_marker())
            || heading_parts(line_text(raw)) is Some || strip_prefix(
            line_text(raw),
            seq!['>', ' '],
        ) is Some {
            None
        } else if unordered_item(line_text(raw)) is Some {
            Some(ListKind::Unordered)
        } else if ordered_item(line_text(raw)) is Some {
            Some(ListKind::Ordered)
        } else {
            None
        },
{
}

} // verus!
