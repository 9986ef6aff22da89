//! Inline Markdown: code spans and emphasis inside one block of text.
use vstd::prelude::*;
use crate::escape::{escape, escape_chars, lemma_escape_has_no_markup, lemma_escape_len};
use crate::text::{
    chars_of, contains, find, find_from_exec, lemma_find_first, lemma_find_from, lemma_find_from_shift,
    lemma_replace_after_piece, matches_at, push_chars, replace_all, slice_chars, starts_with,
    string_of,
};

verus! {

/// `s` with each occurrence of the non-empty `marker` rewritten, from left to
/// right: while no pair is open, a marker with another marker after it opens a
/// pair (`open_tag`) and a marker with none after it stays as it is; while a
/// pair is open, the next marker closes it (`close_tag`). A pair still open at
/// the end is closed there. `open` says whether a pair is open at the start.
pub open spec fn pair_markup(
    s: Seq<char>,
    marker: Seq<char>,
    open_tag: Seq<char>,
    close_tag: Seq<char>,
    open: bool,
) -> Seq<char>
    decreases s.len(),
{
    match find(s, marker) {
        None => s + if open {
            close_tag
        } else {
            seq![]
        },
        Some(p) => {
            proof {
                lemma_find_from(s, marker, 0);
            }
            let after = s.skip(p as int + marker.len());
            let more = contains(after, marker);
            s.take(p as int) + (if open {
                close_tag
            } else if more {
                open_tag
            } else {
                marker
            }) + pair_markup(after, marker, open_tag, close_tag, !open && more)
        },
    }
}

/// The strong-emphasis marker `**`.
pub open spec fn strong_marker() -> Seq<char> {
    seq!['*', '*']
}

/// The emphasis marker `*`.
pub open spec fn em_marker() -> Seq<char> {
    seq!['*']
}

/// The code-span marker, a backtick.
pub open spec fn tick() -> Seq<char> {
    seq!['`']
}

/// Emphasis applied to already escaped text: `**` pairs become `<strong>`,
/// then `*` pairs become `<em>`.
pub open spec fn emphasis(escaped: Seq<char>) -> Seq<char> {
    pair_markup(
        pair_markup(escaped, strong_marker(), "<strong>"@, "</strong>"@, false),
        em_marker(),
        "<em>"@,
        "</em>"@,
        false,
    )
}

/// Inline Markdown of `s`: text between two backticks becomes an escaped
/// `<code>` span; the text around code spans is escaped and given emphasis; a
/// backtick with no closing one stays a backtick.
pub open spec fn inline_md(s: Seq<char>) -> Seq<char>
    decreases s.len(),
{
    match find(s, tick()) {
        None => emphasis(escape(s)),
        Some(i) => {
            proof {
                lemma_find_from(s, tick(), 0);
            }
            let before = s.take(i as int);
            let after = s.skip(i as int + 1);
            match find(after, tick()) {
                Some(j) => {
                    proof {
                        lemma_find_from(after, tick(), 0);
                    }
                    emphasis(escape(before)) + "<code>"@ + escape(after.take(j as int))
                        + "</code>"@ + inline_md(after.skip(j as int + 1))
                },
                None => emphasis(escape(before)) + tick() + emphasis(escape(after)),
            }
        },
    }
}

/// Text in which the marker does not occur is left as it is (a pair that is
/// open gets closed at the end).
pub proof fn lemma_pair_markup_absent(
    s: Seq<char>,
    marker: Seq<char>,
    open_tag: Seq<char>,
    close_tag: Seq<char>,
)
    requires
        !contains(s, marker),
    ensures
        pair_markup(s, marker, open_tag, close_tag, false) == s,
{
    assert(s + seq![] =~= s);
}

/// Inline rendering of text with no backtick and no asterisk is plain escaping.
pub proof fn lemma_inline_plain(s: Seq<char>)
    requires
        forall|i: int| 0 <= i < s.len() ==> #[trigger] s[i] != '`' && s[i] != '*',
    ensures
        inline_md(s) == escape(s),
{
    lemma_find_from(s, tick(), 0);
    lemma_escape_no_star(s);
    let e = escape(s);
    lemma_find_from(e, strong_marker(), 0);
    lemma_find_from(e, em_marker(), 0);
    if find(s, tick()) is Some {
        let p = find(s, tick())->0;
        assert(s[p as int] == tick()[0]);
    }
    if find(e, strong_marker()) is Some {
        let p = find(e, strong_marker())->0;
        assert(e[p as int] == strong_marker()[0]);
    }
    lemma_pair_markup_absent(e, strong_marker(), "<strong>"@, "</strong>"@);
    if find(e, em_marker()) is Some {
        let p = find(e, em_marker())->0;
        assert(e[p as int] == em_marker()[0]);
    }
    lemma_pair_markup_absent(e, em_marker(), "<em>"@, "</em>"@);
}

/// Escaping adds no asterisk.
pub proof fn lemma_escape_no_star(s: Seq<char>)
    requires
        forall|i: int| 0 <= i < s.len() ==> #[trigger] s[i] != '*',
    ensures
        forall|i: int| 0 <= i < escape(s).len() ==> #[trigger] escape(s)[i] != '*',
    decreases s.len(),
{
    reveal_strlit("&amp;");
    reveal_strlit("&lt;");
    reveal_strlit("&gt;");
    reveal_strlit("&quot;");
    reveal_strlit("&#39;");
    if s.len() > 0 {
        let d = s.drop_last();
        assert forall|i: int| 0 <= i < d.len() implies #[trigger] d[i] != '*' by {
            assert(d[i] == s[i]);
        }
        lemma_escape_no_star(d);
        let e = escape(d);
        let h = crate::escape::html_entity(s.last());
        assert(s.last() == s[s.len() - 1]);
        assert forall|i: int| 0 <= i < escape(s).len() implies #[trigger] escape(s)[i] != '*' by {
            if i >= e.len() {
                assert(escape(s)[i] == h[i - e.len()]);
            } else {
                assert(escape(s)[i] == e[i]);
            }
        }
    }
}

/// Marking up pairs never shortens a text when the tags are at least as long
/// as the marker.
pub proof fn lemma_pair_markup_len(
    s: Seq<char>,
    marker: Seq<char>,
    open_tag: Seq<char>,
    close_tag: Seq<char>,
    open: bool,
)
    requires
        open_tag.len() >= marker.len(),
        close_tag.len() >= marker.len(),
    ensures
        pair_markup(s, marker, open_tag, close_tag, open).len() >= s.len(),
    decreases s.len(),
{
    lemma_find_from(s, marker, 0);
    if let Some(p) = find(s, marker) {
        let after = s.skip(p as int + marker.len());
        lemma_pair_markup_len(
            after,
            marker,
            open_tag,
            close_tag,
            !open && contains(after, marker),
        );
    }
}

/// Inline rendering never shortens a text.
pub proof fn lemma_inline_md_len(s: Seq<char>)
    ensures
        inline_md(s).len() >= s.len(),
    decreases s.len(),
{
    reveal_strlit("<strong>");
    reveal_strlit("</strong>");
    reveal_strlit("<em>");
    reveal_strlit("</em>");
    reveal_strlit("<code>");
    reveal_strlit("</code>");
    lemma_find_from(s, tick(), 0);
    match find(s, tick()) {
        None => {
            lemma_emphasis_len(s);
        },
        Some(i) => {
            let before = s.take(i as int);
            let after = s.skip(i as int + 1);
            lemma_emphasis_len(before);
            lemma_find_from(after, tick(), 0);
            match find(after, tick()) {
                Some(j) => {
                    lemma_escape_len(after.take(j as int));
                    lemma_inline_md_len(after.skip(j as int + 1));
                },
                None => {
                    lemma_emphasis_len(after);
                },
            }
        },
    }
}

proof fn lemma_emphasis_len(s: Seq<char>)
    ensures
        emphasis(escape(s)).len() >= s.len(),
{
    reveal_strlit("<strong>");
    reveal_strlit("</strong>");
    reveal_strlit("<em>");
    reveal_strlit("</em>");
    lemma_escape_len(s);
    let e = escape(s);
    lemma_pair_markup_len(e, strong_marker(), "<strong>"@, "</strong>"@, false);
    lemma_pair_markup_len(
        pair_markup(e, strong_marker(), "<strong>"@, "</strong>"@, false),
        em_marker(),
        "<em>"@,
        "</em>"@,
        false,
    );
}

/// Markers and tags that can be told apart: non-empty, both tags begin with
/// `<`, neither tag begins the other, and the marker holds no `<`.
pub open spec fn tags_distinct(marker: Seq<char>, open_tag: Seq<char>, close_tag: Seq<char>) -> bool {
    &&& marker.len() > 0
    &&& open_tag.len() > 0 && open_tag[0] == '<'
    &&& close_tag.len() > 0 && close_tag[0] == '<'
    &&& !starts_with(open_tag, close_tag)
    &&& !starts_with(close_tag, open_tag)
    &&& no_lt(marker)
}

/// `s` holds no `<`.
pub open spec fn no_lt(s: Seq<char>) -> bool {
    forall|i: int| 0 <= i < s.len() ==> #[trigger] s[i] != '<'
}

/// Reading `x` from the left, `open_tag` and `close_tag` alternate, the first
/// of them as `open` says (a close tag first when a pair is open), and no pair
/// is open at the end.
pub open spec fn tags_alternate(x: Seq<char>, open_tag: Seq<char>, close_tag: Seq<char>, open: bool) -> bool
    decreases x.len(),
{
    if x.len() == 0 {
        !open
    } else if open_tag.len() > 0 && starts_with(x, open_tag) {
        !open && tags_alternate(x.skip(open_tag.len() as int), open_tag, close_tag, true)
    } else if close_tag.len() > 0 && starts_with(x, close_tag) {
        open && tags_alternate(x.skip(close_tag.len() as int), open_tag, close_tag, false)
    } else {
        tags_alternate(x.drop_first(), open_tag, close_tag, open)
    }
}

/// `x` with every `open_tag` and `close_tag`, read from the left, put back to
/// `marker`.
pub open spec fn untag(x: Seq<char>, marker: Seq<char>, open_tag: Seq<char>, close_tag: Seq<char>) -> Seq<char>
    decreases x.len(),
{
    if x.len() == 0 {
        seq![]
    } else if open_tag.len() > 0 && starts_with(x, open_tag) {
        marker + untag(x.skip(open_tag.len() as int), marker, open_tag, close_tag)
    } else if close_tag.len() > 0 && starts_with(x, close_tag) {
        marker + untag(x.skip(close_tag.len() as int), marker, open_tag, close_tag)
    } else {
        seq![x[0]] + untag(x.drop_first(), marker, open_tag, close_tag)
    }
}

proof fn lemma_untag_plain(
    a: Seq<char>,
    b: Seq<char>,
    marker: Seq<char>,
    open_tag: Seq<char>,
    close_tag: Seq<char>,
    open: bool,
)
    requires
        tags_distinct(marker, open_tag, close_tag),
        no_lt(a),
    ensures
        untag(a + b, marker, open_tag, close_tag) == a + untag(b, marker, open_tag, close_tag),
        tags_alternate(a + b, open_tag, close_tag, open) == tags_alternate(b, open_tag, close_tag, open),
    decreases a.len(),
{
    if a.len() == 0 {
        assert(a + b =~= b);
    } else {
        let x = a + b;
        assert(x[0] == a[0]);
        if starts_with(x, open_tag) {
            assert(x.take(open_tag.len() as int)[0] == x[0]);
        }
        if starts_with(x, close_tag) {
            assert(x.take(close_tag.len() as int)[0] == x[0]);
        }
        let d = a.drop_first();
        assert forall|i: int| 0 <= i < d.len() implies #[trigger] d[i] != '<' by {
            assert(d[i] == a[i + 1]);
        }
        lemma_untag_plain(d, b, marker, open_tag, close_tag, open);
        assert(x.drop_first() =~= d + b);
        assert(seq![a[0]] + (d + b) =~= x);
        assert(seq![a[0]] + (d + untag(b, marker, open_tag, close_tag)) =~= a + untag(b, marker, open_tag, close_tag));
    }
}

proof fn lemma_untag_tag(
    tag: Seq<char>,
    b: Seq<char>,
    marker: Seq<char>,
    open_tag: Seq<char>,
    close_tag: Seq<char>,
)
    requires
        tags_distinct(marker, open_tag, close_tag),
        tag == open_tag || tag == close_tag,
    ensures
        untag(tag + b, marker, open_tag, close_tag) == marker + untag(b, marker, open_tag, close_tag),
        tag == open_tag ==> tags_alternate(tag + b, open_tag, close_tag, false) == tags_alternate(b, open_tag, close_tag, true),
        tag == open_tag ==> !tags_alternate(tag + b, open_tag, close_tag, true),
        tag == close_tag ==> tags_alternate(tag + b, open_tag, close_tag, true) == tags_alternate(b, open_tag, close_tag, false),
        tag == close_tag ==> !tags_alternate(tag + b, open_tag, close_tag, false),
{
    let x = tag + b;
    assert(x.take(tag.len() as int) =~= tag);
    assert(x.skip(tag.len() as int) =~= b);
    assert(starts_with(x, tag));
    if tag == close_tag {
        if starts_with(x, open_tag) {
            if open_tag.len() <= close_tag.len() {
                assert(close_tag.take(open_tag.len() as int) =~= x.take(open_tag.len() as int));
            } else {
                assert(open_tag.take(close_tag.len() as int) =~= x.take(close_tag.len() as int));
            }
        }
    }
}

/// Marking up pairs, then putting every tag back to the marker, gives the text
/// back (with the marker for a pair closed at the end); and the tags
/// alternate, none left open.
pub proof fn lemma_pair_markup_round_trip(
    s: Seq<char>,
    marker: Seq<char>,
    open_tag: Seq<char>,
    close_tag: Seq<char>,
    open: bool,
)
    requires
        tags_distinct(marker, open_tag, close_tag),
        no_lt(s),
    ensures
        untag(pair_markup(s, marker, open_tag, close_tag, open), marker, open_tag, close_tag) == s
            + if open && !contains(s, marker) {
            marker
        } else {
            seq![]
        },
        tags_alternate(pair_markup(s, marker, open_tag, close_tag, open), open_tag, close_tag, open),
    decreases s.len(),
{
    let e = Seq::<char>::empty();
    assert(untag(e, marker, open_tag, close_tag) == e);
    lemma_find_from(s, marker, 0);
    match find(s, marker) {
        None => {
            if open {
                lemma_untag_plain(s, close_tag, marker, open_tag, close_tag, open);
                lemma_untag_tag(close_tag, e, marker, open_tag, close_tag);
                assert(close_tag + e =~= close_tag);
                assert(marker + e =~= marker);
            } else {
                lemma_untag_plain(s, e, marker, open_tag, close_tag, open);
                assert(s + e =~= s);
            }
        },
        Some(p) => {
            let before = s.take(p as int);
            let after = s.skip(p as int + marker.len());
            let more = contains(after, marker);
            let tok = if open {
                close_tag
            } else if more {
                open_tag
            } else {
                marker
            };
            let next = !open && more;
            assert forall|i: int| 0 <= i < before.len() implies #[trigger] before[i] != '<' by {
                assert(before[i] == s[i]);
            }
            assert forall|i: int| 0 <= i < after.len() implies #[trigger] after[i] != '<' by {
                assert(after[i] == s[i + p + marker.len()]);
            }
            lemma_pair_markup_round_trip(after, marker, open_tag, close_tag, next);
            let r = pair_markup(after, marker, open_tag, close_tag, next);
            assert(pair_markup(s, marker, open_tag, close_tag, open) == before + tok + r);
            assert(before + tok + r =~= before + (tok + r));
            lemma_untag_plain(before, tok + r, marker, open_tag, close_tag, open);
            if tok == marker {
                lemma_untag_plain(marker, r, marker, open_tag, close_tag, open);
            } else {
                lemma_untag_tag(tok, r, marker, open_tag, close_tag);
            }
            assert(matches_at(s, marker, p as int));
            assert(before + marker + after =~= s) by {
                assert forall|k: int| 0 <= k < s.len() implies #[trigger] (before + marker + after)[k] == s[k] by {
                    if k >= p && k < p + marker.len() {
                        assert(marker[k - p] == s[p + (k - p)]);
                    }
                }
            }
            if next {
                lemma_find_from(after, marker, 0);
            }
            assert(before + (marker + (after + e)) =~= s + e);
        },
    }
}

/// The tags that inline rendering writes.
pub open spec fn inline_tags() -> Seq<Seq<char>> {
    seq!["<code>"@, "</code>"@, "<strong>"@, "</strong>"@, "<em>"@, "</em>"@]
}

/// Every `<` in `x` begins one of `tags`.
pub open spec fn lt_only_in_tags(x: Seq<char>, tags: Seq<Seq<char>>) -> bool {
    forall|i: int|
        0 <= i < x.len() && #[trigger] x[i] == '<' ==> exists|j: int|
            0 <= j < tags.len() && matches_at(x, #[trigger] tags[j], i)
}

/// Every tag begins with its only `<`, and no tag holds `c`.
pub open spec fn plain_tags(tags: Seq<Seq<char>>, c: char) -> bool {
    forall|j: int, q: int|
        0 <= j < tags.len() && 0 <= q < tags[j].len() ==> #[trigger] tags[j][q] != c && (
        tags[j][q] == '<' <==> q == 0)
}

proof fn lemma_inline_tags_plain()
    ensures
        plain_tags(inline_tags(), '*'),
        plain_tags(inline_tags(), '`'),
{
    reveal_strlit("<code>");
    reveal_strlit("</code>");
    reveal_strlit("<strong>");
    reveal_strlit("</strong>");
    reveal_strlit("<em>");
    reveal_strlit("</em>");
}

pub proof fn lemma_lt_only_append(a: Seq<char>, b: Seq<char>, tags: Seq<Seq<char>>)
    requires
        lt_only_in_tags(a, tags),
        lt_only_in_tags(b, tags),
    ensures
        lt_only_in_tags(a + b, tags),
{
    let x = a + b;
    assert forall|i: int| 0 <= i < x.len() && #[trigger] x[i] == '<' implies exists|j: int|
        0 <= j < tags.len() && matches_at(x, #[trigger] tags[j], i) by {
        if i < a.len() {
            assert(a[i] == '<');
            let j = choose|j: int| 0 <= j < tags.len() && matches_at(a, #[trigger] tags[j], i);
            let t = tags[j];
            assert forall|q: int| 0 <= q < t.len() implies x[i + q] == #[trigger] t[q] by {
                assert(a[i + q] == t[q]);
            }
            assert(matches_at(x, tags[j], i));
        } else {
            let k = i - a.len();
            assert(b[k] == '<');
            let j = choose|j: int| 0 <= j < tags.len() && matches_at(b, #[trigger] tags[j], k);
            let t = tags[j];
            assert forall|q: int| 0 <= q < t.len() implies x[i + q] == #[trigger] t[q] by {
                assert(b[k + q] == t[q]);
            }
            assert(matches_at(x, tags[j], i));
        }
    }
}

pub proof fn lemma_no_lt_only(x: Seq<char>, tags: Seq<Seq<char>>)
    requires
        no_lt(x),
    ensures
        lt_only_in_tags(x, tags),
{
}

pub proof fn lemma_tag_lt_only(tags: Seq<Seq<char>>, j: int, c: char)
    requires
        0 <= j < tags.len(),
        plain_tags(tags, c),
    ensures
        lt_only_in_tags(tags[j], tags),
{
    let t = tags[j];
    assert forall|i: int| 0 <= i < t.len() && #[trigger] t[i] == '<' implies exists|k: int|
        0 <= k < tags.len() && matches_at(t, #[trigger] tags[k], i) by {
        assert(tags[j][i] == '<');
        assert(i == 0);
        assert(matches_at(t, tags[j], 0));
    }
}

proof fn lemma_lt_only_take(x: Seq<char>, p: int, tags: Seq<Seq<char>>)
    requires
        lt_only_in_tags(x, tags),
        0 <= p < x.len(),
        plain_tags(tags, x[p]),
    ensures
        lt_only_in_tags(x.take(p), tags),
{
    let y = x.take(p);
    assert forall|i: int| 0 <= i < y.len() && #[trigger] y[i] == '<' implies exists|j: int|
        0 <= j < tags.len() && matches_at(y, #[trigger] tags[j], i) by {
        assert(x[i] == '<');
        let j = choose|j: int| 0 <= j < tags.len() && matches_at(x, #[trigger] tags[j], i);
        let t = tags[j];
        if i + t.len() > p {
            assert(x[i + (p - i)] == t[p - i]);
            assert(tags[j][p - i] != x[p]);
        }
        assert forall|q: int| 0 <= q < t.len() implies y[i + q] == #[trigger] t[q] by {
            assert(x[i + q] == t[q]);
        }
        assert(matches_at(y, tags[j], i));
    }
}

proof fn lemma_lt_only_skip(x: Seq<char>, k: int, tags: Seq<Seq<char>>)
    requires
        lt_only_in_tags(x, tags),
        0 <= k <= x.len(),
    ensures
        lt_only_in_tags(x.skip(k), tags),
{
    let y = x.skip(k);
    assert forall|i: int| 0 <= i < y.len() && #[trigger] y[i] == '<' implies exists|j: int|
        0 <= j < tags.len() && matches_at(y, #[trigger] tags[j], i) by {
        assert(x[i + k] == '<');
        let j = choose|j: int| 0 <= j < tags.len() && matches_at(x, #[trigger] tags[j], i + k);
        let t = tags[j];
        assert forall|q: int| 0 <= q < t.len() implies y[i + q] == #[trigger] t[q] by {
            assert(x[i + k + q] == t[q]);
        }
        assert(matches_at(y, tags[j], i));
    }
}

proof fn lemma_pair_markup_lt_only(
    x: Seq<char>,
    marker: Seq<char>,
    jo: int,
    jc: int,
    tags: Seq<Seq<char>>,
    open: bool,
)
    requires
        lt_only_in_tags(x, tags),
        marker.len() > 0,
        no_lt(marker),
        0 <= jo < tags.len(),
        0 <= jc < tags.len(),
        plain_tags(tags, marker[0]),
    ensures
        lt_only_in_tags(pair_markup(x, marker, tags[jo], tags[jc], open), tags),
    decreases x.len(),
{
    lemma_tag_lt_only(tags, jo, marker[0]);
    lemma_tag_lt_only(tags, jc, marker[0]);
    lemma_find_from(x, marker, 0);
    match find(x, marker) {
        None => {
            if open {
                lemma_lt_only_append(x, tags[jc], tags);
            } else {
                assert(x + seq![] =~= x);
            }
        },
        Some(p) => {
            let after = x.skip(p as int + marker.len());
            let more = contains(after, marker);
            let tok = if open {
                tags[jc]
            } else if more {
                tags[jo]
            } else {
                marker
            };
            assert(x[p as int] == marker[0]) by {
                assert(x[p as int + 0] == marker[0]);
            }
            lemma_lt_only_take(x, p as int, tags);
            lemma_lt_only_skip(x, p as int + marker.len(), tags);
            lemma_pair_markup_lt_only(after, marker, jo, jc, tags, !open && more);
            lemma_no_lt_only(marker, tags);
            let r = pair_markup(after, marker, tags[jo], tags[jc], !open && more);
            lemma_lt_only_append(x.take(p as int), tok, tags);
            lemma_lt_only_append(x.take(p as int) + tok, r, tags);
        },
    }
}

proof fn lemma_emphasis_lt_only(s: Seq<char>)
    ensures
        lt_only_in_tags(emphasis(escape(s)), inline_tags()),
{
    let tags = inline_tags();
    lemma_inline_tags_plain();
    lemma_escape_has_no_markup(s);
    lemma_no_lt_only(escape(s), tags);
    assert(strong_marker()[0] == '*');
    assert(no_lt(strong_marker()));
    lemma_pair_markup_lt_only(escape(s), strong_marker(), 2, 3, tags, false);
    assert(no_lt(em_marker()));
    lemma_pair_markup_lt_only(
        pair_markup(escape(s), strong_marker(), tags[2], tags[3], false),
        em_marker(),
        4,
        5,
        tags,
        false,
    );
}

/// Inline rendering writes no markup but its own: every `<` it outputs begins
/// `<code>`, `</code>`, `<strong>`, `</strong>`, `<em>` or `</em>`.
pub proof fn lemma_inline_only_own_tags(s: Seq<char>)
    ensures
        lt_only_in_tags(inline_md(s), inline_tags()),
    decreases s.len(),
{
    let tags = inline_tags();
    lemma_inline_tags_plain();
    lemma_find_from(s, tick(), 0);
    match find(s, tick()) {
        None => lemma_emphasis_lt_only(s),
        Some(i) => {
            let before = s.take(i as int);
            let after = s.skip(i as int + 1);
            lemma_emphasis_lt_only(before);
            lemma_find_from(after, tick(), 0);
            match find(after, tick()) {
                Some(j) => {
                    let code = after.take(j as int);
                    lemma_escape_has_no_markup(code);
                    lemma_no_lt_only(escape(code), tags);
                    lemma_tag_lt_only(tags, 0, '*');
                    lemma_tag_lt_only(tags, 1, '*');
                    lemma_inline_only_own_tags(after.skip(j as int + 1));
                    let a = emphasis(escape(before));
                    lemma_lt_only_append(a, tags[0], tags);
                    lemma_lt_only_append(a + tags[0], escape(code), tags);
                    lemma_lt_only_append(a + tags[0] + escape(code), tags[1], tags);
                    lemma_lt_only_append(
                        a + tags[0] + escape(code) + tags[1],
                        inline_md(after.skip(j as int + 1)),
                        tags,
                    );
                },
                None => {
                    lemma_emphasis_lt_only(after);
                    assert(no_lt(tick()));
                    lemma_no_lt_only(tick(), tags);
                    lemma_lt_only_append(emphasis(escape(before)), tick(), tags);
                    lemma_lt_only_append(
                        emphasis(escape(before)) + tick(),
                        emphasis(escape(after)),
                        tags,
                    );
                },
            }
        },
    }
}

/// `t` holds no `<` after its first character.
pub open spec fn lt_first_only(t: Seq<char>) -> bool {
    forall|i: int| 1 <= i < t.len() ==> #[trigger] t[i] != '<'
}

proof fn lemma_tag_pair_lt_only(t: Seq<char>, o: Seq<char>, c: Seq<char>)
    requires
        t == o || t == c,
        lt_first_only(t),
    ensures
        lt_only_in_tags(t, seq![o, c]),
{
    let tags = seq![o, c];
    assert forall|i: int| 0 <= i < t.len() && #[trigger] t[i] == '<' implies exists|j: int|
        0 <= j < tags.len() && matches_at(t, #[trigger] tags[j], i) by {
        assert(i == 0);
        let j = if t == o {
            0int
        } else {
            1int
        };
        assert(tags[j] == t);
        assert(matches_at(t, tags[j], 0));
    }
}

/// Marking up text that holds no `<` writes no `<` but at the start of a tag.
proof fn lemma_pair_markup_plain_lt_only(
    s: Seq<char>,
    marker: Seq<char>,
    o: Seq<char>,
    c: Seq<char>,
    open: bool,
)
    requires
        no_lt(s),
        no_lt(marker),
        marker.len() > 0,
        lt_first_only(o),
        lt_first_only(c),
    ensures
        lt_only_in_tags(pair_markup(s, marker, o, c, open), seq![o, c]),
    decreases s.len(),
{
    let tags = seq![o, c];
    lemma_tag_pair_lt_only(o, o, c);
    lemma_tag_pair_lt_only(c, o, c);
    lemma_find_from(s, marker, 0);
    match find(s, marker) {
        None => {
            lemma_no_lt_only(s, tags);
            if open {
                lemma_lt_only_append(s, c, tags);
            } else {
                assert(s + seq![] =~= s);
            }
        },
        Some(p) => {
            let before = s.take(p as int);
            let after = s.skip(p as int + marker.len());
            let more = contains(after, marker);
            let tok = if open {
                c
            } else if more {
                o
            } else {
                marker
            };
            assert(no_lt(before)) by {
                assert forall|i: int| 0 <= i < before.len() implies #[trigger] before[i] != '<' by {
                    assert(before[i] == s[i]);
                }
            }
            assert(no_lt(after)) by {
                assert forall|i: int| 0 <= i < after.len() implies #[trigger] after[i] != '<' by {
                    assert(after[i] == s[i + p + marker.len()]);
                }
            }
            lemma_no_lt_only(before, tags);
            lemma_no_lt_only(marker, tags);
            lemma_pair_markup_plain_lt_only(after, marker, o, c, !open && more);
            let r = pair_markup(after, marker, o, c, !open && more);
            lemma_lt_only_append(before, tok, tags);
            lemma_lt_only_append(before + tok, r, tags);
        },
    }
}

/// Replacing the open tags by the marker, then the close tags, is putting the
/// tags back as `untag` does, where every `<` begins one of the two tags.
proof fn lemma_untag_by_replacements(x: Seq<char>, marker: Seq<char>, o: Seq<char>, c: Seq<char>)
    requires
        tags_distinct(marker, o, c),
        lt_first_only(o),
        lt_first_only(c),
        lt_only_in_tags(x, seq![o, c]),
    ensures
        replace_all(replace_all(x, o, marker), c, marker) == untag(x, marker, o, c),
    decreases x.len(),
{
    let tags = seq![o, c];
    if x.len() == 0 {
        assert(replace_all(x, o, marker) == x);
        assert(replace_all(x, c, marker) == x);
    } else if starts_with(x, o) {
        let rest = x.skip(o.len() as int);
        assert(matches_at(x, o, 0)) by {
            assert forall|k: int| 0 <= k < o.len() implies x[0 + k] == #[trigger] o[k] by {
                assert(x.take(o.len() as int)[k] == x[k]);
            }
        }
        lemma_lt_only_skip(x, o.len() as int, tags);
        lemma_untag_by_replacements(rest, marker, o, c);
        let y = replace_all(rest, o, marker);
        assert(replace_all(x, o, marker) == marker + y);
        assert(!matches_at(marker + y, c, 0)) by {
            if matches_at(marker + y, c, 0) {
                assert((marker + y)[0int + 0] == c[0]);
                assert((marker + y)[0] == marker[0]);
            }
        }
        assert forall|i: int| 1 <= i < marker.len() implies #[trigger] marker[i] != c[0] by {}
        lemma_replace_after_piece(marker, y, c, marker);
    } else if starts_with(x, c) {
        let rest = x.skip(c.len() as int);
        assert(matches_at(x, c, 0)) by {
            assert forall|k: int| 0 <= k < c.len() implies x[0 + k] == #[trigger] c[k] by {
                assert(x.take(c.len() as int)[k] == x[k]);
            }
        }
        lemma_lt_only_skip(x, c.len() as int, tags);
        lemma_untag_by_replacements(rest, marker, o, c);
        assert(x =~= c + rest);
        assert(!matches_at(c + rest, o, 0)) by {
            if matches_at(c + rest, o, 0) {
                if o.len() <= c.len() {
                    assert(c.take(o.len() as int) =~= o) by {
                        assert forall|k: int| 0 <= k < o.len() implies c.take(o.len() as int)[k]
                            == o[k] by {
                            assert((c + rest)[0 + k] == o[k]);
                        }
                    }
                } else {
                    assert(o.take(c.len() as int) =~= c) by {
                        assert forall|k: int| 0 <= k < c.len() implies o.take(c.len() as int)[k]
                            == c[k] by {
                            assert((c + rest)[0 + k] == o[k]);
                        }
                    }
                }
            }
        }
        assert forall|i: int| 1 <= i < c.len() implies #[trigger] c[i] != o[0] by {}
        lemma_replace_after_piece(c, rest, o, marker);
        let y = replace_all(rest, o, marker);
        assert(matches_at(c + y, c, 0)) by {
            assert forall|k: int| 0 <= k < c.len() implies (c + y)[0 + k] == #[trigger] c[k] by {}
        }
        assert((c + y).skip(c.len() as int) =~= y);
    } else {
        assert(x[0] != '<') by {
            if x[0] == '<' {
                let j = choose|j: int| 0 <= j < tags.len() && matches_at(x, #[trigger] tags[j], 0);
                assert(x.take(tags[j].len() as int) =~= tags[j]) by {
                    assert forall|k: int| 0 <= k < tags[j].len() implies x.take(
                        tags[j].len() as int,
                    )[k] == tags[j][k] by {
                        assert(x[0 + k] == tags[j][k]);
                    }
                }
            }
        }
        let rest = x.drop_first();
        lemma_lt_only_skip(x, 1, tags);
        assert(x.skip(1) =~= rest);
        lemma_untag_by_replacements(rest, marker, o, c);
        assert(!matches_at(x, o, 0)) by {
            if matches_at(x, o, 0) {
                assert(x[0int + 0] == o[0]);
            }
        }
        let y = replace_all(rest, o, marker);
        assert(replace_all(x, o, marker) == seq![x[0]] + y);
        assert(!matches_at(seq![x[0]] + y, c, 0)) by {
            if matches_at(seq![x[0]] + y, c, 0) {
                assert((seq![x[0]] + y)[0int + 0] == c[0]);
            }
        }
        assert((seq![x[0]] + y)[0] == x[0]);
        assert((seq![x[0]] + y).drop_first() =~= y);
    }
}

/// Replacing the open tags, then the close tags, of marked-up text by the
/// marker gives the text back.
pub proof fn lemma_pair_markup_replacements(
    s: Seq<char>,
    marker: Seq<char>,
    open_tag: Seq<char>,
    close_tag: Seq<char>,
)
    requires
        tags_distinct(marker, open_tag, close_tag),
        lt_first_only(open_tag),
        lt_first_only(close_tag),
        no_lt(s),
    ensures
        replace_all(
            replace_all(pair_markup(s, marker, open_tag, close_tag, false), open_tag, marker),
            close_tag,
            marker,
        ) == s,
{
    lemma_pair_markup_plain_lt_only(s, marker, open_tag, close_tag, false);
    lemma_untag_by_replacements(
        pair_markup(s, marker, open_tag, close_tag, false),
        marker,
        open_tag,
        close_tag,
    );
    lemma_pair_markup_round_trip(s, marker, open_tag, close_tag, false);
    assert(s + seq![] =~= s);
}

/// How many times `t` occurs in `x`.
pub open spec fn count_tag(x: Seq<char>, t: Seq<char>) -> nat
    decreases x.len(),
{
    if x.len() == 0 {
        0
    } else {
        (if matches_at(x, t, 0) {
            1nat
        } else {
            0nat
        }) + count_tag(x.drop_first(), t)
    }
}

/// Each of `tags` is `t`, or neither of the two begins the other.
pub open spec fn apart_from(tags: Seq<Seq<char>>, t: Seq<char>) -> bool {
    forall|j: int|
        0 <= j < tags.len() ==> #[trigger] tags[j] == t || (!starts_with(tags[j], t)
            && !starts_with(t, tags[j]))
}

/// Counting a tag over a concatenation counts it in each part, when every `<`
/// of the first part begins a whole tag.
pub proof fn lemma_count_append(a: Seq<char>, b: Seq<char>, t: Seq<char>, tags: Seq<Seq<char>>)
    requires
        lt_only_in_tags(a, tags),
        t.len() > 0,
        t[0] == '<',
        apart_from(tags, t),
    ensures
        count_tag(a + b, t) == count_tag(a, t) + count_tag(b, t),
    decreases a.len(),
{
    let x = a + b;
    if a.len() == 0 {
        assert(x =~= b);
    } else {
        assert(x[0] == a[0]);
        if matches_at(x, t, 0) && !matches_at(a, t, 0) {
            assert(x[0int + 0] == t[0]);
            assert(a[0] == '<');
            let j = choose|j: int| 0 <= j < tags.len() && matches_at(a, #[trigger] tags[j], 0);
            let g = tags[j];
            if t.len() <= a.len() {
                assert forall|k: int| 0 <= k < t.len() implies a[0 + k] == #[trigger] t[k] by {
                    assert(x[0 + k] == t[k]);
                }
            } else {
                assert(g.len() <= a.len());
                assert(t.take(g.len() as int) =~= g) by {
                    assert forall|k: int| 0 <= k < g.len() implies t.take(g.len() as int)[k] == g[k] by {
                        assert(a[0 + k] == g[k]);
                        assert(x[0 + k] == t[k]);
                    }
                }
                assert(starts_with(t, g));
            }
        }
        if matches_at(a, t, 0) {
            assert forall|k: int| 0 <= k < t.len() implies x[0 + k] == #[trigger] t[k] by {
                assert(a[0 + k] == t[k]);
            }
        }
        lemma_lt_only_skip(a, 1, tags);
        assert(a.skip(1) =~= a.drop_first());
        lemma_count_append(a.drop_first(), b, t, tags);
        assert(x.drop_first() =~= a.drop_first() + b);
    }
}

/// A tag does not occur where every `<` begins a tag that neither begins it
/// nor is begun by it.
pub proof fn lemma_count_absent(x: Seq<char>, t: Seq<char>, tags: Seq<Seq<char>>)
    requires
        lt_only_in_tags(x, tags),
        t.len() > 0,
        t[0] == '<',
        forall|j: int|
            0 <= j < tags.len() ==> !starts_with(#[trigger] tags[j], t) && !starts_with(t, tags[j]),
    ensures
        count_tag(x, t) == 0,
    decreases x.len(),
{
    if x.len() > 0 {
        if matches_at(x, t, 0) {
            assert(x[0int + 0] == t[0]);
            let j = choose|j: int| 0 <= j < tags.len() && matches_at(x, #[trigger] tags[j], 0);
            let g = tags[j];
            if t.len() <= g.len() {
                assert(g.take(t.len() as int) =~= t) by {
                    assert forall|k: int| 0 <= k < t.len() implies g.take(t.len() as int)[k] == t[k] by {
                        assert(x[0 + k] == t[k]);
                        assert(x[0 + k] == g[k]);
                    }
                }
            } else {
                assert(t.take(g.len() as int) =~= g) by {
                    assert forall|k: int| 0 <= k < g.len() implies t.take(g.len() as int)[k] == g[k] by {
                        assert(x[0 + k] == t[k]);
                        assert(x[0 + k] == g[k]);
                    }
                }
            }
        }
        lemma_lt_only_skip(x, 1, tags);
        assert(x.skip(1) =~= x.drop_first());
        lemma_count_absent(x.drop_first(), t, tags);
    }
}

/// Marking up pairs leaves the count of another tag as it was, where every
/// `<` begins one of `tags` and the marker's first character is in no tag.
proof fn lemma_pair_markup_keeps_count(
    x: Seq<char>,
    marker: Seq<char>,
    jo: int,
    jc: int,
    tags: Seq<Seq<char>>,
    open: bool,
    t: Seq<char>,
)
    requires
        lt_only_in_tags(x, tags),
        marker.len() > 0,
        no_lt(marker),
        0 <= jo < tags.len(),
        0 <= jc < tags.len(),
        plain_tags(tags, marker[0]),
        t.len() > 0,
        t[0] == '<',
        apart_from(tags, t),
        t != tags[jo],
        t != tags[jc],
    ensures
        count_tag(pair_markup(x, marker, tags[jo], tags[jc], open), t) == count_tag(x, t),
    decreases x.len(),
{
    let o = tags[jo];
    let c = tags[jc];
    lemma_tag_lt_only(tags, jo, marker[0]);
    lemma_tag_lt_only(tags, jc, marker[0]);
    lemma_no_lt_only(marker, tags);
    lemma_no_lt_only(marker, Seq::<Seq<char>>::empty());
    lemma_count_absent(marker, t, Seq::<Seq<char>>::empty());
    lemma_single_tag(tags, jo, marker[0]);
    lemma_single_tag(tags, jc, marker[0]);
    assert(!starts_with(o, t) && !starts_with(t, o));
    assert(!starts_with(c, t) && !starts_with(t, c));
    lemma_count_absent(o, t, seq![o]);
    lemma_count_absent(c, t, seq![c]);
    lemma_find_from(x, marker, 0);
    match find(x, marker) {
        None => {
            if open {
                lemma_count_append(x, c, t, tags);
            } else {
                assert(x + seq![] =~= x);
            }
        },
        Some(p) => {
            let before = x.take(p as int);
            let after = x.skip(p as int + marker.len());
            let more = contains(after, marker);
            let tok = if open {
                c
            } else if more {
                o
            } else {
                marker
            };
            assert(x[p as int] == marker[0]) by {
                assert(x[p as int + 0] == marker[0]);
            }
            lemma_lt_only_take(x, p as int, tags);
            lemma_lt_only_skip(x, p as int + marker.len(), tags);
            lemma_pair_markup_keeps_count(after, marker, jo, jc, tags, !open && more, t);
            let r = pair_markup(after, marker, o, c, !open && more);
            assert(pair_markup(x, marker, o, c, open) =~= before + (tok + r));
            lemma_count_append(tok, r, t, tags);
            lemma_count_append(before, tok + r, t, tags);
            assert(matches_at(x, marker, p as int));
            assert(x =~= before + (marker + after)) by {
                assert forall|k: int| 0 <= k < x.len() implies #[trigger] x[k] == (before + (marker
                    + after))[k] by {
                    if p <= k < p + marker.len() {
                        assert(marker[k - p] == x[p + (k - p)]);
                    }
                }
            }
            lemma_count_append(marker, after, t, tags);
            lemma_count_append(before, marker + after, t, tags);
        },
    }
}

/// A tag with its only `<` at its start: every `<` of it begins itself.
proof fn lemma_single_tag(tags: Seq<Seq<char>>, j: int, c: char)
    requires
        0 <= j < tags.len(),
        plain_tags(tags, c),
    ensures
        lt_only_in_tags(tags[j], seq![tags[j]]),
{
    let g = tags[j];
    let one = seq![g];
    assert forall|i: int| 0 <= i < g.len() && #[trigger] g[i] == '<' implies exists|k: int|
        0 <= k < one.len() && matches_at(g, #[trigger] one[k], i) by {
        assert(tags[j][i] == '<');
        assert(i == 0);
        assert(one[0] == g);
        assert(matches_at(g, one[0], 0));
    }
}

/// A tag occurs once in itself.
proof fn lemma_count_self(tags: Seq<Seq<char>>, j: int, c: char)
    requires
        0 <= j < tags.len(),
        plain_tags(tags, c),
        tags[j].len() > 0,
    ensures
        count_tag(tags[j], tags[j]) == 1,
{
    let g = tags[j];
    assert(matches_at(g, g, 0)) by {
        assert forall|k: int| 0 <= k < g.len() implies g[0 + k] == #[trigger] g[k] by {}
    }
    assert(g[0] == '<') by {
        assert(tags[j][0] == '<');
    }
    assert(no_lt(g.drop_first())) by {
        assert forall|i: int| 0 <= i < g.drop_first().len() implies #[trigger] g.drop_first()[i]
            != '<' by {
            assert(tags[j][i + 1] != '<');
        }
    }
    lemma_no_lt_only(g.drop_first(), Seq::<Seq<char>>::empty());
    lemma_count_absent(g.drop_first(), g, Seq::<Seq<char>>::empty());
}

/// Marking up pairs in text that holds neither tag writes as many close tags
/// as open tags, one more when a pair is open at the start.
proof fn lemma_pair_markup_balance(
    x: Seq<char>,
    marker: Seq<char>,
    jo: int,
    jc: int,
    tags: Seq<Seq<char>>,
    open: bool,
)
    requires
        lt_only_in_tags(x, tags),
        marker.len() > 0,
        no_lt(marker),
        0 <= jo < tags.len(),
        0 <= jc < tags.len(),
        tags[jo] != tags[jc],
        plain_tags(tags, marker[0]),
        tags[jo].len() > 0,
        tags[jc].len() > 0,
        apart_from(tags, tags[jo]),
        apart_from(tags, tags[jc]),
        count_tag(x, tags[jo]) == 0,
        count_tag(x, tags[jc]) == 0,
    ensures
        count_tag(pair_markup(x, marker, tags[jo], tags[jc], open), tags[jo]) + (if open {
            1nat
        } else {
            0nat
        }) == count_tag(pair_markup(x, marker, tags[jo], tags[jc], open), tags[jc]),
    decreases x.len(),
{
    let o = tags[jo];
    let c = tags[jc];
    assert(o[0] == '<') by {
        assert(tags[jo][0] == '<');
    }
    assert(c[0] == '<') by {
        assert(tags[jc][0] == '<');
    }
    lemma_tag_lt_only(tags, jo, marker[0]);
    lemma_tag_lt_only(tags, jc, marker[0]);
    lemma_no_lt_only(marker, tags);
    lemma_no_lt_only(marker, Seq::<Seq<char>>::empty());
    lemma_count_absent(marker, o, Seq::<Seq<char>>::empty());
    lemma_count_absent(marker, c, Seq::<Seq<char>>::empty());
    lemma_count_self(tags, jo, marker[0]);
    lemma_count_self(tags, jc, marker[0]);
    lemma_single_tag(tags, jo, marker[0]);
    lemma_single_tag(tags, jc, marker[0]);
    assert(!starts_with(o, c) && !starts_with(c, o));
    lemma_count_absent(o, c, seq![o]);
    lemma_count_absent(c, o, seq![c]);
    lemma_find_from(x, marker, 0);
    match find(x, marker) {
        None => {
            if open {
                lemma_count_append(x, c, o, tags);
                lemma_count_append(x, c, c, tags);
            } else {
                assert(x + seq![] =~= x);
            }
        },
        Some(p) => {
            let before = x.take(p as int);
            let after = x.skip(p as int + marker.len());
            let more = contains(after, marker);
            let tok = if open {
                c
            } else if more {
                o
            } else {
                marker
            };
            assert(x[p as int] == marker[0]) by {
                assert(x[p as int + 0] == marker[0]);
            }
            lemma_lt_only_take(x, p as int, tags);
            lemma_lt_only_skip(x, p as int + marker.len(), tags);
            assert(matches_at(x, marker, p as int));
            assert(x =~= before + (marker + after)) by {
                assert forall|k: int| 0 <= k < x.len() implies #[trigger] x[k] == (before + (marker
                    + after))[k] by {
                    if p <= k < p + marker.len() {
                        assert(marker[k - p] == x[p + (k - p)]);
                    }
                }
            }
            lemma_count_append(marker, after, o, tags);
            lemma_count_append(before, marker + after, o, tags);
            lemma_count_append(marker, after, c, tags);
            lemma_count_append(before, marker + after, c, tags);
            lemma_pair_markup_balance(after, marker, jo, jc, tags, !open && more);
            let r = pair_markup(after, marker, o, c, !open && more);
            assert(pair_markup(x, marker, o, c, open) =~= before + (tok + r));
            lemma_count_append(tok, r, o, tags);
            lemma_count_append(before, tok + r, o, tags);
            lemma_count_append(tok, r, c, tags);
            lemma_count_append(before, tok + r, c, tags);
        },
    }
}

/// No inline tag begins another.
proof fn lemma_inline_tags_apart()
    ensures
        forall|k: int| 0 <= k < 6 ==> apart_from(inline_tags(), #[trigger] inline_tags()[k]),
        forall|k: int| 0 <= k < 6 ==> (#[trigger] inline_tags()[k]).len() >= 3 && inline_tags()[k][0] == '<',
        inline_tags().len() == 6,
{
    reveal_strlit("<code>");
    reveal_strlit("</code>");
    reveal_strlit("<strong>");
    reveal_strlit("</strong>");
    reveal_strlit("<em>");
    reveal_strlit("</em>");
    let tags = inline_tags();
    assert forall|k: int| 0 <= k < 6 implies apart_from(tags, #[trigger] tags[k]) by {
        let t = tags[k];
        assert forall|j: int| 0 <= j < tags.len() implies #[trigger] tags[j] == t || (!starts_with(
            tags[j],
            t,
        ) && !starts_with(t, tags[j])) by {
            let g = tags[j];
            if j != k {
                assert(g[1] != t[1] || g[2] != t[2]);
                if starts_with(g, t) {
                    assert(g.take(t.len() as int)[1] == g[1]);
                    assert(g.take(t.len() as int)[2] == g[2]);
                }
                if starts_with(t, g) {
                    assert(t.take(g.len() as int)[1] == t[1]);
                    assert(t.take(g.len() as int)[2] == t[2]);
                }
            }
        }
    }
}

/// Different inline tags differ.
proof fn lemma_inline_tags_distinct(j: int, k: int)
    requires
        0 <= j < 6,
        0 <= k < 6,
        j != k,
    ensures
        inline_tags()[j] != inline_tags()[k],
{
    reveal_strlit("<code>");
    reveal_strlit("</code>");
    reveal_strlit("<strong>");
    reveal_strlit("</strong>");
    reveal_strlit("<em>");
    reveal_strlit("</em>");
    let g = inline_tags()[j];
    let t = inline_tags()[k];
    if j == 0 || j == 1 || j == 2 || j == 3 || j == 4 || j == 5 {
        assert(g[1] != t[1] || g[2] != t[2]);
    }
}

/// Emphasis closes every pair it opens: `<strong>` and `</strong>` occur
/// equally often, and so do `<em>` and `</em>`; no code tag occurs.
proof fn lemma_emphasis_balance(s: Seq<char>)
    ensures
        count_tag(emphasis(escape(s)), inline_tags()[2]) == count_tag(
            emphasis(escape(s)),
            inline_tags()[3],
        ),
        count_tag(emphasis(escape(s)), inline_tags()[4]) == count_tag(
            emphasis(escape(s)),
            inline_tags()[5],
        ),
        count_tag(emphasis(escape(s)), inline_tags()[0]) == 0,
        count_tag(emphasis(escape(s)), inline_tags()[1]) == 0,
{
    let tags = inline_tags();
    lemma_inline_tags_plain();
    lemma_inline_tags_apart();
    reveal_strlit("<strong>");
    reveal_strlit("</strong>");
    reveal_strlit("<em>");
    reveal_strlit("</em>");
    let x = escape(s);
    lemma_escape_has_no_markup(s);
    lemma_no_lt_only(x, tags);
    lemma_no_lt_only(x, Seq::<Seq<char>>::empty());
    assert(tags[2] != tags[3] && tags[4] != tags[5]) by {
        assert(tags[2][1] != tags[3][1]);
        assert(tags[4][1] != tags[5][1]);
    }
    assert forall|k: int| 0 <= k < 6 implies count_tag(x, #[trigger] tags[k]) == 0 by {
        lemma_count_absent(x, tags[k], Seq::<Seq<char>>::empty());
    }
    assert(no_lt(strong_marker()) && no_lt(em_marker()));
    assert(strong_marker()[0] == '*' && em_marker()[0] == '*');
    let p1 = pair_markup(x, strong_marker(), tags[2], tags[3], false);
    lemma_pair_markup_balance(x, strong_marker(), 2, 3, tags, false);
    lemma_pair_markup_lt_only(x, strong_marker(), 2, 3, tags, false);
    assert forall|k: int| 0 <= k < 6 && k != 2 && k != 3 implies count_tag(p1, #[trigger] tags[k])
        == 0 by {
        lemma_inline_tags_distinct(k, 2);
        lemma_inline_tags_distinct(k, 3);
        lemma_pair_markup_keeps_count(x, strong_marker(), 2, 3, tags, false, tags[k]);
    }
    let e = pair_markup(p1, em_marker(), tags[4], tags[5], false);
    assert(e == emphasis(x));
    lemma_pair_markup_balance(p1, em_marker(), 4, 5, tags, false);
    assert forall|k: int| 0 <= k < 4 implies count_tag(e, #[trigger] tags[k]) == count_tag(p1, tags[k]) by {
        lemma_inline_tags_distinct(k, 4);
        lemma_inline_tags_distinct(k, 5);
        lemma_pair_markup_keeps_count(p1, em_marker(), 4, 5, tags, false, tags[k]);
    }
}

/// The emphasis tags.
pub open spec fn emphasis_tags() -> Seq<Seq<char>> {
    seq!["<strong>"@, "</strong>"@, "<em>"@, "</em>"@]
}

proof fn lemma_emphasis_only_own_tags(s: Seq<char>)
    ensures
        lt_only_in_tags(emphasis(escape(s)), emphasis_tags()),
{
    reveal_strlit("<strong>");
    reveal_strlit("</strong>");
    reveal_strlit("<em>");
    reveal_strlit("</em>");
    let tags = emphasis_tags();
    assert(plain_tags(tags, '*'));
    lemma_escape_has_no_markup(s);
    lemma_no_lt_only(escape(s), tags);
    assert(no_lt(strong_marker()));
    lemma_pair_markup_lt_only(escape(s), strong_marker(), 0, 1, tags, false);
    assert(no_lt(em_marker()));
    lemma_pair_markup_lt_only(
        pair_markup(escape(s), strong_marker(), tags[0], tags[1], false),
        em_marker(),
        2,
        3,
        tags,
        false,
    );
}

proof fn lemma_code_tags_apart()
    ensures
        apart_from(inline_tags(), "<code>"@),
        apart_from(inline_tags(), "</code>"@),
        forall|j: int|
            0 <= j < emphasis_tags().len() ==> !starts_with(#[trigger] emphasis_tags()[j], "<code>"@)
                && !starts_with("<code>"@, emphasis_tags()[j]),
        forall|j: int|
            0 <= j < emphasis_tags().len() ==> !starts_with(#[trigger] emphasis_tags()[j], "</code>"@)
                && !starts_with("</code>"@, emphasis_tags()[j]),
        "<code>"@.len() > 0 && "<code>"@[0] == '<',
        "</code>"@.len() > 0 && "</code>"@[0] == '<',
{
    reveal_strlit("<code>");
    reveal_strlit("</code>");
    reveal_strlit("<strong>");
    reveal_strlit("</strong>");
    reveal_strlit("<em>");
    reveal_strlit("</em>");
    let c = "<code>"@;
    let d = "</code>"@;
    assert forall|j: int| 0 <= j < inline_tags().len() implies #[trigger] inline_tags()[j] == c || (
    !starts_with(inline_tags()[j], c) && !starts_with(c, inline_tags()[j])) by {
        let g = inline_tags()[j];
        if j > 0 {
            if starts_with(g, c) {
                assert(g.take(c.len() as int)[1] == g[1]);
                assert(g.take(c.len() as int)[2] == g[2]);
            }
            if starts_with(c, g) {
                assert(c.take(g.len() as int)[1] == c[1]);
                assert(c.take(g.len() as int)[2] == c[2]);
            }
        }
    }
    assert forall|j: int| 0 <= j < inline_tags().len() implies #[trigger] inline_tags()[j] == d || (
    !starts_with(inline_tags()[j], d) && !starts_with(d, inline_tags()[j])) by {
        let g = inline_tags()[j];
        if j != 1 {
            if starts_with(g, d) {
                assert(g.take(d.len() as int)[1] == g[1]);
                assert(g.take(d.len() as int)[2] == g[2]);
            }
            if starts_with(d, g) {
                assert(d.take(g.len() as int)[1] == d[1]);
                assert(d.take(g.len() as int)[2] == d[2]);
            }
        }
    }
    assert forall|j: int| 0 <= j < emphasis_tags().len() implies !starts_with(
        #[trigger] emphasis_tags()[j],
        c,
    ) && !starts_with(c, emphasis_tags()[j]) by {
        let g = emphasis_tags()[j];
        if starts_with(g, c) {
            assert(g.take(c.len() as int)[1] == g[1]);
            assert(g.take(c.len() as int)[2] == g[2]);
        }
        if starts_with(c, g) {
            assert(c.take(g.len() as int)[1] == c[1]);
            assert(c.take(g.len() as int)[2] == c[2]);
        }
    }
    assert forall|j: int| 0 <= j < emphasis_tags().len() implies !starts_with(
        #[trigger] emphasis_tags()[j],
        d,
    ) && !starts_with(d, emphasis_tags()[j]) by {
        let g = emphasis_tags()[j];
        if starts_with(g, d) {
            assert(g.take(d.len() as int)[1] == g[1]);
            assert(g.take(d.len() as int)[2] == g[2]);
        }
        if starts_with(d, g) {
            assert(d.take(g.len() as int)[1] == d[1]);
            assert(d.take(g.len() as int)[2] == d[2]);
        }
    }
}

/// Where `x` holds no `<`, no tag occurs.
proof fn lemma_count_no_lt(x: Seq<char>, t: Seq<char>)
    requires
        no_lt(x),
        t.len() > 0,
        t[0] == '<',
    ensures
        count_tag(x, t) == 0,
{
    lemma_no_lt_only(x, Seq::<Seq<char>>::empty());
    lemma_count_absent(x, t, Seq::<Seq<char>>::empty());
}

/// A tag occurs once in itself and not in the other code tag.
proof fn lemma_count_code_tags()
    ensures
        count_tag("<code>"@, "<code>"@) == 1,
        count_tag("<code>"@, "</code>"@) == 0,
        count_tag("</code>"@, "<code>"@) == 0,
        count_tag("</code>"@, "</code>"@) == 1,
{
    reveal_strlit("<code>");
    reveal_strlit("</code>");
    let c = "<code>"@;
    let d = "</code>"@;
    assert forall|i: int| 0 <= i < c.drop_first().len() implies #[trigger] c.drop_first()[i] != '<' by {}
    assert forall|i: int| 0 <= i < d.drop_first().len() implies #[trigger] d.drop_first()[i] != '<' by {}
    lemma_count_no_lt(c.drop_first(), c);
    lemma_count_no_lt(c.drop_first(), d);
    lemma_count_no_lt(d.drop_first(), c);
    lemma_count_no_lt(d.drop_first(), d);
    assert(matches_at(c, c, 0)) by {
        assert forall|k: int| 0 <= k < c.len() implies c[0 + k] == #[trigger] c[k] by {}
    }
    assert(matches_at(d, d, 0)) by {
        assert forall|k: int| 0 <= k < d.len() implies d[0 + k] == #[trigger] d[k] by {}
    }
    assert(!matches_at(c, d, 0)) by {
        if matches_at(c, d, 0) {
            assert(c[0int + 1] == d[1]);
        }
    }
    assert(!matches_at(d, c, 0)) by {
        if matches_at(d, c, 0) {
            assert(d[0int + 1] == c[1]);
        }
    }
}

/// Inline rendering closes every code span it opens: `<code>` and `</code>`
/// occur equally often in its output.
#[verifier::spinoff_prover]
pub proof fn lemma_inline_code_tags_balance(s: Seq<char>)
    ensures
        count_tag(inline_md(s), "<code>"@) == count_tag(inline_md(s), "</code>"@),
    decreases s.len(),
{
    let c = "<code>"@;
    let d = "</code>"@;
    let tags = inline_tags();
    lemma_code_tags_apart();
    lemma_count_code_tags();
    lemma_find_from(s, tick(), 0);
    match find(s, tick()) {
        None => {
            lemma_emphasis_only_own_tags(s);
            lemma_count_absent(emphasis(escape(s)), c, emphasis_tags());
            lemma_count_absent(emphasis(escape(s)), d, emphasis_tags());
        },
        Some(i) => {
            let before = s.take(i as int);
            let after = s.skip(i as int + 1);
            let a = emphasis(escape(before));
            lemma_emphasis_only_own_tags(before);
            lemma_count_absent(a, c, emphasis_tags());
            lemma_count_absent(a, d, emphasis_tags());
            lemma_emphasis_lt_only(before);
            lemma_find_from(after, tick(), 0);
            match find(after, tick()) {
                Some(j) => {
                    let code = after.take(j as int);
                    let e = escape(code);
                    let r = inline_md(after.skip(j as int + 1));
                    lemma_inline_code_tags_balance(after.skip(j as int + 1));
                    lemma_escape_has_no_markup(code);
                    lemma_no_lt_only(e, tags);
                    lemma_count_no_lt(e, c);
                    lemma_count_no_lt(e, d);
                    lemma_inline_tags_plain();
                    lemma_tag_lt_only(tags, 0, '*');
                    lemma_tag_lt_only(tags, 1, '*');
                    let whole = a + (c + (e + (d + r)));
                    assert(inline_md(s) =~= whole);
                    lemma_count_append(d, r, c, tags);
                    lemma_count_append(d, r, d, tags);
                    lemma_count_append(e, d + r, c, tags);
                    lemma_count_append(e, d + r, d, tags);
                    lemma_count_append(c, e + (d + r), c, tags);
                    lemma_count_append(c, e + (d + r), d, tags);
                    lemma_count_append(a, c + (e + (d + r)), c, tags);
                    lemma_count_append(a, c + (e + (d + r)), d, tags);
                },
                None => {
                    let b = emphasis(escape(after));
                    lemma_emphasis_only_own_tags(after);
                    lemma_count_absent(b, c, emphasis_tags());
                    lemma_count_absent(b, d, emphasis_tags());
                    assert(no_lt(tick()));
                    lemma_no_lt_only(tick(), tags);
                    lemma_count_no_lt(tick(), c);
                    lemma_count_no_lt(tick(), d);
                    assert(inline_md(s) =~= a + (tick() + b));
                    lemma_count_append(tick(), b, c, tags);
                    lemma_count_append(tick(), b, d, tags);
                    lemma_count_append(a, tick() + b, c, tags);
                    lemma_count_append(a, tick() + b, d, tags);
                },
            }
        },
    }
}

/// A code tag holds no emphasis tag.
proof fn lemma_code_tag_counts(j: int, k: int)
    requires
        j == 0 || j == 1,
        k == 2 || k == 3 || k == 4 || k == 5,
    ensures
        count_tag(inline_tags()[j], inline_tags()[k]) == 0,
{
    let tags = inline_tags();
    lemma_inline_tags_plain();
    lemma_inline_tags_apart();
    lemma_inline_tags_distinct(j, k);
    lemma_single_tag(tags, j, '*');
    assert(apart_from(tags, tags[k]));
    assert(tags[j] == tags[k] || (!starts_with(tags[j], tags[k]) && !starts_with(tags[k], tags[j])));
    assert(seq![tags[j]][0] == tags[j]);
    lemma_count_absent(tags[j], tags[k], seq![tags[j]]);
}

/// Counting an emphasis tag across a code span counts it around the span.
proof fn lemma_span_count(a: Seq<char>, e: Seq<char>, r: Seq<char>, k: int)
    requires
        lt_only_in_tags(a, inline_tags()),
        no_lt(e),
        2 <= k < 6,
    ensures
        count_tag(a + (inline_tags()[0] + (e + (inline_tags()[1] + r))), inline_tags()[k])
            == count_tag(a, inline_tags()[k]) + count_tag(r, inline_tags()[k]),
{
    let tags = inline_tags();
    let t = tags[k];
    let t0 = tags[0];
    let t1 = tags[1];
    lemma_inline_tags_plain();
    lemma_inline_tags_apart();
    lemma_no_lt_only(e, tags);
    lemma_count_no_lt(e, t);
    lemma_tag_lt_only(tags, 0, '*');
    lemma_tag_lt_only(tags, 1, '*');
    lemma_code_tag_counts(0, k);
    lemma_code_tag_counts(1, k);
    lemma_count_append(t1, r, t, tags);
    lemma_count_append(e, t1 + r, t, tags);
    lemma_count_append(t0, e + (t1 + r), t, tags);
    lemma_count_append(a, t0 + (e + (t1 + r)), t, tags);
}

/// Counting a tag across an unmatched backtick counts it around the backtick.
proof fn lemma_tick_count(a: Seq<char>, b: Seq<char>, k: int)
    requires
        lt_only_in_tags(a, inline_tags()),
        0 <= k < 6,
    ensures
        count_tag(a + (tick() + b), inline_tags()[k]) == count_tag(a, inline_tags()[k]) + count_tag(
            b,
            inline_tags()[k],
        ),
{
    let tags = inline_tags();
    let t = tags[k];
    lemma_inline_tags_apart();
    assert(no_lt(tick()));
    lemma_no_lt_only(tick(), tags);
    lemma_count_no_lt(tick(), t);
    lemma_count_append(tick(), b, t, tags);
    lemma_count_append(a, tick() + b, t, tags);
}

/// Inline rendering closes every emphasis it opens: `<strong>` and
/// `</strong>` occur equally often in its output, and so do `<em>` and
/// `</em>`.
pub proof fn lemma_inline_emphasis_balance(s: Seq<char>, k: int)
    requires
        k == 2 || k == 4,
    ensures
        count_tag(inline_md(s), inline_tags()[k]) == count_tag(inline_md(s), inline_tags()[k + 1]),
    decreases s.len(),
{
    lemma_find_from(s, tick(), 0);
    match find(s, tick()) {
        None => {
            lemma_emphasis_balance(s);
        },
        Some(i) => {
            let before = s.take(i as int);
            let after = s.skip(i as int + 1);
            let a = emphasis(escape(before));
            lemma_emphasis_balance(before);
            lemma_emphasis_lt_only(before);
            lemma_find_from(after, tick(), 0);
            match find(after, tick()) {
                Some(j) => {
                    let code = after.take(j as int);
                    let rest = after.skip(j as int + 1);
                    lemma_inline_emphasis_balance(rest, k);
                    lemma_escape_has_no_markup(code);
                    let whole = a + (inline_tags()[0] + (escape(code) + (inline_tags()[1]
                        + inline_md(rest))));
                    assert(inline_md(s) =~= whole);
                    lemma_span_count(a, escape(code), inline_md(rest), k);
                    lemma_span_count(a, escape(code), inline_md(rest), k + 1);
                },
                None => {
                    lemma_emphasis_balance(after);
                    lemma_emphasis_lt_only(after);
                    assert(inline_md(s) =~= a + (tick() + emphasis(escape(after))));
                    lemma_tick_count(a, emphasis(escape(after)), k);
                    lemma_tick_count(a, emphasis(escape(after)), k + 1);
                },
            }
        },
    }
}

/// In text where the marker's first character does not occur, followed by
/// the marker, the marker is the first occurrence.
proof fn lemma_first_marker(x: Seq<char>, m: Seq<char>, y: Seq<char>)
    requires
        m.len() > 0,
        forall|k: int| 0 <= k < x.len() ==> #[trigger] x[k] != m[0],
    ensures
        find(x + m + y, m) == Some(x.len()),
{
    let s = x + m + y;
    assert(matches_at(s, m, x.len() as int)) by {
        assert forall|k: int| 0 <= k < m.len() implies s[x.len() + k] == #[trigger] m[k] by {
            assert(s[x.len() + k] == (x + m)[x.len() + k]);
        }
    }
    assert forall|j: int| 0 <= j < x.len() implies !matches_at(s, m, j) by {
        assert(s[j] == x[j]);
        if matches_at(s, m, j) {
            assert(s[j + 0] == m[0]);
        }
    }
    lemma_find_first(s, m, x.len());
}

/// Every closed pair is marked up alike, wherever it stands: text without the
/// marker's first character, the marker, such text again, the marker, and the
/// rest become the text, the open tag, the enclosed text, the close tag, and
/// the rest marked up the same way.
pub proof fn lemma_pair_markup_pair(
    before: Seq<char>,
    mid: Seq<char>,
    rest: Seq<char>,
    marker: Seq<char>,
    open_tag: Seq<char>,
    close_tag: Seq<char>,
)
    requires
        marker.len() > 0,
        forall|k: int| 0 <= k < before.len() ==> #[trigger] before[k] != marker[0],
        forall|k: int| 0 <= k < mid.len() ==> #[trigger] mid[k] != marker[0],
    ensures
        pair_markup(before + marker + mid + marker + rest, marker, open_tag, close_tag, false)
            == before + open_tag + mid + close_tag + pair_markup(
            rest,
            marker,
            open_tag,
            close_tag,
            false,
        ),
{
    let s = before + marker + mid + marker + rest;
    let after = mid + marker + rest;
    assert(s =~= before + marker + after);
    lemma_first_marker(before, marker, after);
    lemma_first_marker(mid, marker, rest);
    assert(s.take(before.len() as int) =~= before);
    assert(s.skip(before.len() as int + marker.len()) =~= after);
    assert(contains(after, marker));
    assert(after.take(mid.len() as int) =~= mid);
    assert(after.skip(mid.len() as int + marker.len()) =~= rest);
    assert(pair_markup(after, marker, open_tag, close_tag, true) == mid + close_tag + pair_markup(
        rest,
        marker,
        open_tag,
        close_tag,
        false,
    ));
}

/// The number of backticks in `s`.
pub open spec fn tick_count(s: Seq<char>) -> nat
    decreases s.len(),
{
    if s.len() == 0 {
        0
    } else {
        (if s[0] == '`' {
            1nat
        } else {
            0nat
        }) + tick_count(s.drop_first())
    }
}

/// `s` holds no backtick.
pub open spec fn no_tick(s: Seq<char>) -> bool {
    forall|k: int| 0 <= k < s.len() ==> #[trigger] s[k] != '`'
}

proof fn lemma_tick_count_append(a: Seq<char>, b: Seq<char>)
    ensures
        tick_count(a + b) == tick_count(a) + tick_count(b),
    decreases a.len(),
{
    if a.len() == 0 {
        assert(a + b =~= b);
    } else {
        assert((a + b)[0] == a[0]);
        assert((a + b).drop_first() =~= a.drop_first() + b);
        lemma_tick_count_append(a.drop_first(), b);
    }
}

proof fn lemma_tick_count_none(s: Seq<char>)
    requires
        no_tick(s),
    ensures
        tick_count(s) == 0,
    decreases s.len(),
{
    if s.len() > 0 {
        assert(s[0] != '`');
        lemma_tick_count_none(s.drop_first());
    }
}

/// Where `find` finds no backtick, there is none.
proof fn lemma_no_tick_found(s: Seq<char>)
    requires
        find(s, tick()) is None,
    ensures
        no_tick(s),
{
    lemma_find_from(s, tick(), 0);
    assert forall|k: int| 0 <= k < s.len() implies #[trigger] s[k] != '`' by {
        if s[k] == '`' {
            assert(matches_at(s, tick(), k));
        }
    }
}

/// Up to the first backtick that `find` finds, there is none.
proof fn lemma_no_tick_before(s: Seq<char>, p: nat)
    requires
        find(s, tick()) == Some(p),
    ensures
        no_tick(s.take(p as int)),
        s[p as int] == '`',
{
    lemma_find_from(s, tick(), 0);
    assert(s[p as int + 0] == tick()[0]);
    assert forall|k: int| 0 <= k < s.take(p as int).len() implies #[trigger] s.take(p as int)[k]
        != '`' by {
        if s[k] == '`' {
            assert(matches_at(s, tick(), k));
        }
    }
}

/// The first backtick of `x`, a backtick, then `y` is the one after `x`.
proof fn lemma_first_tick(x: Seq<char>, y: Seq<char>)
    requires
        no_tick(x),
    ensures
        find(x + tick() + y, tick()) == Some(x.len()),
{
    let s = x + tick() + y;
    assert(matches_at(s, tick(), x.len() as int)) by {
        assert(s[x.len() as int + 0] == tick()[0]);
    }
    assert forall|j: int| 0 <= j < x.len() implies !matches_at(s, tick(), j) by {
        assert(s[j] == x[j]);
        if matches_at(s, tick(), j) {
            assert(s[j + 0] == tick()[0]);
        }
    }
    lemma_find_first(s, tick(), x.len());
}

/// Every closed code span is rendered alike, wherever it stands: text with no
/// backtick, a code span, and the rest render as the emphasised text, the
/// escaped code in a `<code>` element, and the rest rendered the same way.
pub proof fn lemma_inline_code_span(before: Seq<char>, code: Seq<char>, rest: Seq<char>)
    requires
        no_tick(before),
        no_tick(code),
    ensures
        inline_md(before + tick() + code + tick() + rest) == emphasis(escape(before)) + "<code>"@
            + escape(code) + "</code>"@ + inline_md(rest),
{
    let s = before + tick() + code + tick() + rest;
    let tail = code + tick() + rest;
    assert(s =~= before + tick() + tail);
    lemma_first_tick(before, tail);
    lemma_first_tick(code, rest);
    assert(s.take(before.len() as int) =~= before);
    assert(s.skip(before.len() as int + 1) =~= tail);
    assert(tail.take(code.len() as int) =~= code);
    assert(tail.skip(code.len() as int + 1) =~= rest);
}

/// The backticks of `s` are the first one that `find` finds and those after it.
proof fn lemma_ticks_after_first(s: Seq<char>, i: nat)
    requires
        find(s, tick()) == Some(i),
    ensures
        no_tick(s.take(i as int)),
        tick_count(s) == 1 + tick_count(s.skip(i as int + 1)),
{
    let before = s.take(i as int);
    let after = s.skip(i as int + 1);
    lemma_find_from(s, tick(), 0);
    lemma_no_tick_before(s, i);
    lemma_tick_count_none(before);
    assert(s =~= before + (tick() + after));
    assert(tick_count(tick().drop_first()) == 0) by {
        assert(tick().drop_first().len() == 0);
    }
    assert(tick() + after =~= seq!['`'] + after);
    assert((tick() + after).drop_first() =~= after);
    lemma_tick_count_append(before, tick() + after);
}

/// Inline rendering makes a code span of each pair of backticks, taken from
/// left to right: `<code>` occurs half as often as the backticks of the text
/// (an odd one out stays a backtick).
#[verifier::spinoff_prover]
pub proof fn lemma_inline_code_span_count(s: Seq<char>)
    ensures
        count_tag(inline_md(s), "<code>"@) == tick_count(s) / 2,
    decreases s.len(),
{
    let c = "<code>"@;
    let d = "</code>"@;
    let tags = inline_tags();
    lemma_code_tags_apart();
    lemma_count_code_tags();
    lemma_find_from(s, tick(), 0);
    match find(s, tick()) {
        None => {
            lemma_no_tick_found(s);
            lemma_tick_count_none(s);
            lemma_emphasis_only_own_tags(s);
            lemma_count_absent(emphasis(escape(s)), c, emphasis_tags());
        },
        Some(i) => {
            let before = s.take(i as int);
            let after = s.skip(i as int + 1);
            let a = emphasis(escape(before));
            lemma_ticks_after_first(s, i);
            lemma_emphasis_only_own_tags(before);
            lemma_count_absent(a, c, emphasis_tags());
            lemma_emphasis_lt_only(before);
            lemma_find_from(after, tick(), 0);
            match find(after, tick()) {
                Some(j) => {
                    let code = after.take(j as int);
                    let rest = after.skip(j as int + 1);
                    let e = escape(code);
                    let r = inline_md(rest);
                    lemma_ticks_after_first(after, j);
                    lemma_inline_code_span_count(rest);
                    lemma_escape_has_no_markup(code);
                    lemma_no_lt_only(e, tags);
                    lemma_count_no_lt(e, c);
                    lemma_inline_tags_plain();
                    lemma_tag_lt_only(tags, 0, '*');
                    lemma_tag_lt_only(tags, 1, '*');
                    let whole = a + (c + (e + (d + r)));
                    assert(inline_md(s) =~= whole);
                    lemma_count_append(d, r, c, tags);
                    lemma_count_append(e, d + r, c, tags);
                    lemma_count_append(c, e + (d + r), c, tags);
                    lemma_count_append(a, c + (e + (d + r)), c, tags);
                },
                None => {
                    let b = emphasis(escape(after));
                    lemma_no_tick_found(after);
                    lemma_tick_count_none(after);
                    lemma_emphasis_only_own_tags(after);
                    lemma_count_absent(b, c, emphasis_tags());
                    assert(no_lt(tick()));
                    lemma_no_lt_only(tick(), tags);
                    lemma_count_no_lt(tick(), c);
                    assert(inline_md(s) =~= a + (tick() + b));
                    lemma_count_append(tick(), b, c, tags);
                    lemma_count_append(a, tick() + b, c, tags);
                },
            }
        },
    }
}

/// Rewrites each occurrence of `marker` in `source` into `open`/`close` tags
/// as `pair_markup` says, starting with no pair open.
pub fn replace_inline_pair(source: &Vec<char>, marker: &Vec<char>, open: &str, close: &str) -> (r:
    String)
    requires
        marker.len() > 0,
    ensures
        r@ == pair_markup(source@, marker@, open@, close@, false),
{
    let mut out = String::new();
    let mut pos: usize = 0;
    let mut open_pair = false;
    let ghost total = pair_markup(source@, marker@, open@, close@, false);
    assert(source@.skip(0) =~= source@);
    loop
        invariant
            pos <= source.len(),
            marker.len() > 0,
            total == pair_markup(source@, marker@, open@, close@, false),
            out@ + pair_markup(source@.skip(pos as int), marker@, open@, close@, open_pair)
                == total,
        decreases source.len() - pos,
    {
        let ghost rest = source@.skip(pos as int);
        let f = find_from_exec(source, marker, pos);
        proof {
            lemma_find_from_shift(source@, marker@, pos as nat, 0);
            lemma_find_from(source@, marker@, pos as nat);
        }
        match f {
            None => {
                let ghost o = out@;
                assert(find(rest, marker@) is None);
                let tail = slice_chars(source, pos, source.len());
                assert(tail@ =~= rest);
                push_chars(&mut out, &tail);
                if open_pair {
                    out.append(close);
                    assert(out@ =~= o + (rest + close@));
                } else {
                    assert(out@ =~= o + (rest + seq![]));
                }
                return out;
            },
            Some(p) => {
                let before = slice_chars(source, pos, p);
                let next = p + marker.len();
                let g = find_from_exec(source, marker, next);
                proof {
                    lemma_find_from_shift(source@, marker@, next as nat, 0);
                    assert(before@ =~= rest.take((p - pos) as int));
                    assert(rest.skip((p - pos) + marker@.len()) =~= source@.skip(next as int));
                }
                let more = g.is_some();
                push_chars(&mut out, &before);
                if open_pair {
                    out.append(close);
                } else if more {
                    out.append(open);
                } else {
                    let m = string_of(marker);
                    out.append(m.as_str());
                }
                open_pair = !open_pair && more;
                pos = next;
            },
        }
    }
}

/// Emphasis on already escaped text: `**` pairs, then `*` pairs.
pub fn render_emphasis(escaped: &Vec<char>) -> (r: String)
    ensures
        r@ == emphasis(escaped@),
{
    let strong = vec!['*', '*'];
    let em = vec!['*'];
    assert(strong@ =~= strong_marker());
    assert(em@ =~= em_marker());
    let first = replace_inline_pair(escaped, &strong, "<strong>", "</strong>");
    let first_chars = chars_of(first.as_str());
    replace_inline_pair(&first_chars, &em, "<em>", "</em>")
}

/// Escapes `s` and applies emphasis, appending the result to `out`.
fn push_text_run(out: &mut String, s: &Vec<char>)
    ensures
        final(out)@ == old(out)@ + emphasis(escape(s@)),
{
    let escaped = escape_chars(s);
    let escaped_chars = chars_of(escaped.as_str());
    let rendered = render_emphasis(&escaped_chars);
    out.append(rendered.as_str());
}

/// Renders inline Markdown: code spans, escaping and emphasis.
#[verifier::spinoff_prover]
#[verifier::rlimit(40)]
pub fn render_inline_markdown(source: &Vec<char>) -> (r: String)
    ensures
        r@ == inline_md(source@),
{
    let ticks = vec!['`'];
    assert(ticks@ =~= tick());
    let mut out = String::new();
    let mut pos: usize = 0;
    let ghost total = inline_md(source@);
    assert(source@.skip(0) =~= source@);
    assert(Seq::<char>::empty() + total =~= total);
    loop
        invariant
            pos <= source.len(),
            ticks@ == tick(),
            total == inline_md(source@),
            out@ + inline_md(source@.skip(pos as int)) == total,
        decreases source.len() - pos,
    {
        let ghost rest = source@.skip(pos as int);
        let f = find_from_exec(source, &ticks, pos);
        proof {
            lemma_find_from_shift(source@, ticks@, pos as nat, 0);
            lemma_find_from(source@, ticks@, pos as nat);
        }
        match f {
            None => {
                assert(find(rest, tick()) is None);
                assert(inline_md(rest) == emphasis(escape(rest)));
                let tail = slice_chars(source, pos, source.len());
                assert(tail@ =~= rest);
                push_text_run(&mut out, &tail);
                return out;
            },
            Some(start) => {
                let before = slice_chars(source, pos, start);
                assert(before@ =~= rest.take((start - pos) as int));
                let after_start = start + 1;
                assert(rest.skip((start - pos) + 1) =~= source@.skip(after_start as int));
                let g = find_from_exec(source, &ticks, after_start);
                proof {
                    lemma_find_from_shift(source@, ticks@, after_start as nat, 0);
                    lemma_find_from(source@, ticks@, after_start as nat);
                }
                push_text_run(&mut out, &before);
                match g {
                    Some(end) => {
                        let code = slice_chars(source, after_start, end);
                        let ghost after = source@.skip(after_start as int);
                        assert(code@ =~= after.take((end - after_start) as int));
                        assert(after.skip((end - after_start) + 1) =~= source@.skip(
                            end + 1,
                        ));
                        out.append("<code>");
                        let escaped_code = escape_chars(&code);
                        out.append(escaped_code.as_str());
                        out.append("</code>");
                        pos = end + 1;
                    },
                    None => {
                        let ghost o = out@;
                        let ghost after = source@.skip(after_start as int);
                        assert(find(after, tick()) is None);
                        assert(inline_md(rest) == emphasis(escape(before@)) + tick() + emphasis(
                            escape(after),
                        ));
                        out.push('`');
                        let tail = slice_chars(source, after_start, source.len());
                        assert(tail@ =~= source@.skip(after_start as int));
                        push_text_run(&mut out, &tail);
                        assert(out@ =~= o + (tick() + emphasis(escape(after))));
                        return out;
                    },
                }
            },
        }
    }
}

} // verus!
