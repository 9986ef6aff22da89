use markdown_preview::block::{heading, markdown_to_html, ordered_list_item, unordered_list_item};
use markdown_preview::escape::escape_html;
use markdown_preview::inline::{render_emphasis, render_inline_markdown, replace_inline_pair};
use markdown_preview::math::{
    contains_math_delimiter, has_bracket_math, has_unescaped_pair, is_escaped_at,
    unescaped_single_dollar_count,
};
use markdown_preview::page::{MATHJAX_SCRIPT, PAGE_HEAD, PAGE_TAIL};
use markdown_preview::json::{json_for_script, script_safe_json};
use markdown_preview::preview::{
    assemble_preview_html, preview_file_name, preview_for_selection, render_preview_html,
    selection_text_for_preview,
};
use markdown_preview::text::{chars_of, split_lines_exec, string_of, trim_chars};

fn cs(s: &str) -> Vec<char> {
    s.chars().collect()
}

fn st(v: &[char]) -> String {
    v.iter().collect()
}

#[test]
fn selection_keeps_text_with_surrounding_whitespace() {
    assert_eq!(selection_text_for_preview("  a  "), Some("  a  "));
    assert_eq!(selection_text_for_preview(""), None);
    assert_eq!(selection_text_for_preview("\u{3000}\u{2028}\r"), None);
    assert_eq!(selection_text_for_preview("\u{200B}"), Some("\u{200B}"));
}

#[test]
fn trims_unicode_whitespace() {
    assert_eq!(st(&trim_chars(&cs("\u{A0} x y\t\n"))), "x y");
    assert_eq!(st(&trim_chars(&cs(" \u{2009} "))), "");
}

#[test]
fn splits_lines_like_str_lines() {
    for text in ["", "a", "a\n", "a\n\nb", "\n", "x\r\ny\r", "a\nb\n\n"] {
        let ours: Vec<String> = split_lines_exec(&cs(text)).iter().map(|l| st(l)).collect();
        let std_lines: Vec<String> = text.split('\n').map(|s| s.to_string()).collect();
        let mut expected = std_lines;
        if text.ends_with('\n') || text.is_empty() {
            expected.pop();
        }
        assert_eq!(ours, expected, "lines of {:?}", text);
    }
}

#[test]
fn chars_and_strings_round_trip() {
    assert_eq!(chars_of("héllo"), vec!['h', 'é', 'l', 'l', 'o']);
    assert_eq!(string_of(&vec!['a', 'ß']), "aß");
}

#[test]
fn escape_leaves_plain_text_alone() {
    assert_eq!(escape_html("plain text 123"), "plain text 123");
    assert_eq!(escape_html(""), "");
    assert_eq!(escape_html("&amp;"), "&amp;amp;");
}

#[test]
fn escape_matches_chained_replacements() {
    let s = "<a href='x'>\"&\"</a> & more";
    let chained = s
        .replace('&', "&amp;")
        .replace('<', "&lt;")
        .replace('>', "&gt;")
        .replace('"', "&quot;")
        .replace('\'', "&#39;");
    assert_eq!(escape_html(s), chained);
    let escaped = escape_html(s);
    assert!(!escaped.contains('<') && !escaped.contains('>'));
    assert!(!escaped.contains('"') && !escaped.contains('\''));
}

#[test]
fn escaped_text_unescapes_to_the_original() {
    let s = "Tom & 'Jerry' <3 \"quotes\"";
    let back = escape_html(s)
        .replace("&#39;", "'")
        .replace("&quot;", "\"")
        .replace("&gt;", ">")
        .replace("&lt;", "<")
        .replace("&amp;", "&");
    assert_eq!(back, s);
}

#[test]
fn escaped_position_counts_backslashes() {
    let s = cs(r"a\$ b\\$ c\\\$");
    assert!(is_escaped_at(&s, 2));
    assert!(!is_escaped_at(&s, 7));
    assert!(is_escaped_at(&s, 13));
    assert!(!is_escaped_at(&s, 0));
}

#[test]
fn unescaped_pairs_are_counted_without_overlap() {
    let dd = vec!['$', '$'];
    assert!(!has_unescaped_pair(&cs("$$$"), &dd));
    assert!(has_unescaped_pair(&cs("$$$$"), &dd));
    assert!(!has_unescaped_pair(&cs(r"\$$ $$"), &dd));
    assert!(has_unescaped_pair(&cs("$$ x $$"), &dd));
}

#[test]
fn bracket_math_needs_both_brackets() {
    assert!(has_bracket_math(&cs(r"\[ x \]")));
    assert!(!has_bracket_math(&cs(r"\[ x")));
    assert!(!has_bracket_math(&cs("[x]")));
}

#[test]
fn lone_dollars_are_counted() {
    assert_eq!(unescaped_single_dollar_count(&cs("$a$ and $b$")), 4);
    assert_eq!(unescaped_single_dollar_count(&cs("$$a$$")), 0);
    assert_eq!(unescaped_single_dollar_count(&cs(r"\$a$")), 1);
    assert_eq!(unescaped_single_dollar_count(&cs("")), 0);
}

#[test]
fn math_detection_edge_cases() {
    assert!(!contains_math_delimiter(""));
    assert!(!contains_math_delimiter("no math here"));
    assert!(contains_math_delimiter("$$ $$"));
    assert!(!contains_math_delimiter("$$ only once"));
    assert!(contains_math_delimiter(r"\\$x$"));
}

#[test]
fn inline_pairs_open_close_and_stay() {
    let star = vec!['*'];
    assert_eq!(replace_inline_pair(&cs("a *b* c"), &star, "<em>", "</em>"), "a <em>b</em> c");
    assert_eq!(replace_inline_pair(&cs("a * b"), &star, "<em>", "</em>"), "a * b");
    assert_eq!(replace_inline_pair(&cs("*a* *b"), &star, "<em>", "</em>"), "<em>a</em> *b");
    assert_eq!(
        replace_inline_pair(&cs("*a *b *c"), &star, "<em>", "</em>"),
        "<em>a </em>b *c"
    );
}

#[test]
fn emphasis_strong_then_em() {
    assert_eq!(render_emphasis(&cs("**bold** and *it*")), "<strong>bold</strong> and <em>it</em>");
    assert_eq!(render_emphasis(&cs("***x***")), "<strong><em>x</strong></em>");
}

#[test]
fn inline_code_spans_are_escaped() {
    assert_eq!(render_inline_markdown(&cs("use `a<b` *now*")), "use <code>a&lt;b</code> <em>now</em>");
    assert_eq!(render_inline_markdown(&cs("open ` tick *x*")), "open ` tick <em>x</em>");
    assert_eq!(render_inline_markdown(&cs("`*a*`")), "<code>*a*</code>");
    assert_eq!(render_inline_markdown(&cs("plain & simple")), "plain &amp; simple");
}

#[test]
fn headings_need_level_and_space() {
    let h = heading(&cs("## Two  ")).unwrap();
    assert_eq!(h.0, 2);
    assert_eq!(st(&h.1), "Two");
    assert!(heading(&cs("#NoSpace")).is_none());
    assert!(heading(&cs("####### seven")).is_none());
    assert!(heading(&cs("#")).is_none());
    assert_eq!(heading(&cs("###### six")).unwrap().0, 6);
}

#[test]
fn list_items_are_recognised() {
    assert_eq!(st(&unordered_list_item(&cs("- a")).unwrap()), "a");
    assert_eq!(st(&unordered_list_item(&cs("*  b")).unwrap()), " b");
    assert_eq!(st(&unordered_list_item(&cs("+ c")).unwrap()), "c");
    assert!(unordered_list_item(&cs("-a")).is_none());
    assert_eq!(st(&ordered_list_item(&cs("12. x")).unwrap()), "x");
    assert!(ordered_list_item(&cs(". x")).is_none());
    assert!(ordered_list_item(&cs("3.x")).is_none());
}

#[test]
fn markdown_blank_text_is_an_empty_paragraph() {
    assert_eq!(markdown_to_html(""), "<p></p>\n");
    assert_eq!(markdown_to_html("  \n\t\n"), "<p></p>\n");
}

#[test]
fn markdown_exact_document() {
    let md = "# Head *x*\ntext one\ntext  two\n\n1. first\n2. second\n- other\n> quote `c`\n```rust \nlet a = 1 < 2;\n```\nafter";
    let expected = "<h1>Head <em>x</em></h1>\n\
<p>text one text  two</p>\n\
<ol>\n<li>first</li>\n<li>second</li>\n</ol>\n\
<ul>\n<li>other</li>\n</ul>\n\
<blockquote><p>quote <code>c</code></p></blockquote>\n\
<pre><code class=\"language-rust\">let a = 1 &lt; 2;\n</code></pre>\n\
<p>after</p>\n";
    assert_eq!(markdown_to_html(md), expected);
}

#[test]
fn markdown_unclosed_fence_and_crlf() {
    assert_eq!(markdown_to_html("```\r\nx\r\n"), "<pre><code>x\n</code></pre>\n");
    assert_eq!(markdown_to_html("- a\nplain"), "<ul>\n<li>a</li>\n</ul>\n<p>plain</p>\n");
    assert_eq!(markdown_to_html("a\n- b"), "<p>a</p>\n<ul>\n<li>b</li>\n</ul>\n");
}

#[test]
fn json_literal_is_made_script_safe() {
    assert_eq!(json_for_script("a\"b"), "\"a\\\"b\"");
    assert_eq!(json_for_script("</x>\u{2028}"), "\"<\\/x>\\u2028\"");
    assert_eq!(json_for_script("line\nbreak"), "\"line\\nbreak\"");
}

#[test]
fn script_safe_rewrites_only_breakouts() {
    assert_eq!(script_safe_json("</a></"), "<\\/a><\\/");
    assert_eq!(script_safe_json("<a>/</"), "<a>/<\\/");
    assert_eq!(script_safe_json("x\u{2029}y"), "x\\u2029y");
    assert_eq!(script_safe_json(""), "");
    let s = "a</b\u{2028}c\u{2029}</";
    let chained = s.replace("</", "<\\/").replace('\u{2028}', "\\u2028").replace('\u{2029}', "\\u2029");
    assert_eq!(script_safe_json(s), chained);
}

#[test]
fn page_is_assembled_around_the_parts() {
    let page = assemble_preview_html("a < b", "\"S\"", "\"R\"");
    assert!(page.starts_with(PAGE_HEAD));
    assert!(page.ends_with(PAGE_TAIL));
    assert!(page.contains("<noscript><pre>a &lt; b</pre></noscript>"));
    assert!(page.contains("const source = \"S\";\nconst renderedHtml = \"R\";"));
    assert!(page.contains("} else if (false) {"));
    assert!(!page.contains(MATHJAX_SCRIPT));
    let math = assemble_preview_html("$a$ $b$", "1", "2");
    assert!(math.contains(MATHJAX_SCRIPT));
    assert!(math.contains("} else if (true) {"));
}

#[test]
fn preview_page_carries_rendered_markdown() {
    let page = render_preview_html("**hi**");
    assert!(page.contains("const source = \"**hi**\";"));
    assert!(page.contains("const renderedHtml = \"<p><strong>hi<\\/strong><\\/p>\\n\";"));
}

#[test]
fn preview_for_selection_skips_blank_text() {
    assert!(preview_for_selection(" \n").is_none());
    assert_eq!(preview_for_selection("x").unwrap(), render_preview_html("x"));
}

#[test]
fn preview_file_names() {
    assert_eq!(preview_file_name(0, 0), "preview-0-0.html");
    assert_eq!(preview_file_name(4242, 1700000000123), "preview-4242-1700000000123.html");
    assert_eq!(
        preview_file_name(u32::MAX, u128::MAX),
        format!("preview-{}-{}.html", u32::MAX, u128::MAX)
    );
}

#[test]
fn crlf_text_renders_like_lf_text() {
    let lf = "# a\n- b\n\ntext\n```\ncode\n```\n";
    assert_eq!(markdown_to_html(&lf.replace('\n', "\r\n")), markdown_to_html(lf));
}

#[test]
fn fenced_line_is_escaped_verbatim() {
    assert_eq!(markdown_to_html("```\n  <b> **x**\n```"), "<pre><code>  &lt;b&gt; **x**\n</code></pre>\n");
}

#[test]
fn text_without_dollars_or_backslashes_has_no_math() {
    assert!(!contains_math_delimiter("[x] (y) {z} ^2"));
}

#[test]
fn empty_delimiter_counts_as_a_pair() {
    assert!(has_unescaped_pair(&cs("abc"), &vec![]));
    assert!(has_unescaped_pair(&cs(""), &vec![]));
}

#[test]
fn fenced_block_of_several_lines_is_escaped() {
    assert_eq!(
        markdown_to_html("```\n# not a heading\n  - <li>\n\n```"),
        "<pre><code># not a heading\n  - &lt;li&gt;\n\n</code></pre>\n"
    );
}

#[test]
fn only_blank_text_renders_as_an_empty_paragraph() {
    assert_eq!(markdown_to_html(" \r\n\t\n"), "<p></p>\n");
    assert_ne!(markdown_to_html("``"), "<p></p>\n");
    assert_ne!(markdown_to_html("x"), "<p></p>\n");
    assert_ne!(markdown_to_html("```"), "<p></p>\n");
}

#[test]
fn removing_emphasis_tags_gives_the_text_back() {
    let star = vec!['*'];
    let source = "a *b* c *d *e";
    let out = replace_inline_pair(&cs(source), &star, "<em>", "</em>");
    assert_eq!(out, "a <em>b</em> c <em>d </em>e");
    assert_eq!(out.replace("</em>", "*").replace("<em>", "*"), source);
}

#[test]
fn chained_replacements_read_escaped_text_back() {
    for s in ["Tom & 'Jerry' <3 \"q\"", "&amp;", "&lt;&gt;", ""] {
        let back = escape_html(s)
            .replace("&lt;", "<")
            .replace("&gt;", ">")
            .replace("&quot;", "\"")
            .replace("&#39;", "'")
            .replace("&amp;", "&");
        assert_eq!(back, s);
    }
}

#[test]
fn inline_output_has_only_its_own_tags() {
    let out = render_inline_markdown(&cs("a <b> `<c>` **d** *e*"));
    assert_eq!(out, "a &lt;b&gt; <code>&lt;c&gt;</code> <strong>d</strong> <em>e</em>");
}

#[test]
fn json_literals_follow_serde_escapes() {
    assert_eq!(json_for_script("a"), "\"a\"");
    assert_eq!(json_for_script("\\\u{1}\u{1f}\u{8}\u{c}\r\t"), "\"\\\\\\u0001\\u001f\\b\\f\\r\\t\"");
    assert_eq!(json_for_script("é\u{7f}/"), "\"é\u{7f}/\"");
}

#[test]
fn inline_tags_balance() {
    let out = render_inline_markdown(&cs("**a** *b* `c` **d *e* f** `g"));
    for (o, c) in [("<code>", "</code>"), ("<strong>", "</strong>"), ("<em>", "</em>")] {
        assert_eq!(out.matches(o).count(), out.matches(c).count(), "{} in {}", o, out);
    }
}
