//! The preview page: the selection check, the assembly of the page and the
//! name of the file it is written to.
use vstd::prelude::*;
use crate::block::{markdown_html, markdown_to_html};
use crate::escape::{escape, escape_html, lemma_escape_has_no_markup};
use crate::math::{contains_math_delimiter, has_math};
use crate::page::{
    MATHJAX_SCRIPT, PAGE_AFTER_SOURCE, PAGE_HAS_MATH, PAGE_HEAD, PAGE_RENDERED_JSON,
    PAGE_SOURCE_JSON, PAGE_TAIL,
};
use crate::json::{
    json_for_script, json_string_literal, json_string_value, lemma_json_for_script_reads_back,
    lemma_script_safe_no_breakout, script_safe,
};
use crate::text::{all_ws, chars_of, lemma_trim_empty, trim_chars};

verus! {

// ---------------------------------------------------------------------------
// The selection
// ---------------------------------------------------------------------------

/// The selected text, unless it is empty or only whitespace.
pub fn selection_text_for_preview(text: &str) -> (r: Option<&str>)
    ensures
        r is None <==> all_ws(text@),
        r is Some ==> r == Some(text),
{
    let cs = chars_of(text);
    let trimmed = trim_chars(&cs);
    proof {
        lemma_trim_empty(text@);
    }
    if trimmed.len() == 0 {
        None
    } else {
        Some(text)
    }
}

// ---------------------------------------------------------------------------
// The page
// ---------------------------------------------------------------------------

/// The preview page for a source text: the escaped source (shown when scripts
/// are off), the math renderer when the text has math, the JSON literals of the
/// source and of its rendered HTML, and the math flag the page script reads.
pub open spec fn preview_page(
    escaped_source: Seq<char>,
    math: bool,
    source_json: Seq<char>,
    rendered_json: Seq<char>,
) -> Seq<char> {
    PAGE_HEAD@ + escaped_source + PAGE_AFTER_SOURCE@ + (if math {
        MATHJAX_SCRIPT@
    } else {
        seq![]
    }) + PAGE_SOURCE_JSON@ + source_json + PAGE_RENDERED_JSON@ + rendered_json + PAGE_HAS_MATH@
        + (if math {
        "true"@
    } else {
        "false"@
    }) + PAGE_TAIL@
}

/// The preview page of `source`.
pub open spec fn preview_of(source: Seq<char>) -> Seq<char> {
    preview_page(
        escape(source),
        has_math(source),
        script_safe(json_string_literal(source)),
        script_safe(json_string_literal(markdown_html(source))),
    )
}

/// `s` holds no `</`, the start of an end tag.
pub open spec fn no_end_tag_start(s: Seq<char>) -> bool {
    forall|i: int| 0 <= i < s.len() - 1 ==> !(#[trigger] s[i] == '<' && s[i + 1] == '/')
}

/// In the preview page of any text, the text stands only where it cannot end
/// an element early: escaped (no `<` at all) in the fallback, and inside JSON
/// literals with no `</` in the script.
pub proof fn lemma_page_source_parts_are_inert(source: Seq<char>)
    ensures
        preview_of(source) == preview_page(
            escape(source),
            has_math(source),
            script_safe(json_string_literal(source)),
            script_safe(json_string_literal(markdown_html(source))),
        ),
        forall|i: int| 0 <= i < escape(source).len() ==> #[trigger] escape(source)[i] != '<',
        no_end_tag_start(script_safe(json_string_literal(source))),
        no_end_tag_start(script_safe(json_string_literal(markdown_html(source)))),
{
    lemma_escape_has_no_markup(source);
    lemma_script_safe_no_breakout(json_string_literal(source));
    lemma_script_safe_no_breakout(json_string_literal(markdown_html(source)));
}

/// The layout of the preview page of any text, part by part: the escaped text,
/// the math renderer only when the text has math, then the script's two
/// literals, the first reading back as the text itself and the second as its
/// rendered HTML (whatever the math flag), and last the math flag.
pub proof fn lemma_preview_layout(source: Seq<char>)
    ensures
        ({
            let source_json = script_safe(json_string_literal(source));
            let rendered_json = script_safe(json_string_literal(markdown_html(source)));
            &&& preview_of(source) == PAGE_HEAD@ + escape(source) + PAGE_AFTER_SOURCE@ + (if has_math(
                source,
            ) {
                MATHJAX_SCRIPT@
            } else {
                seq![]
            }) + PAGE_SOURCE_JSON@ + source_json + PAGE_RENDERED_JSON@ + rendered_json
                + PAGE_HAS_MATH@ + (if has_math(source) {
                "true"@
            } else {
                "false"@
            }) + PAGE_TAIL@
            &&& json_string_value(source_json) == Some(source)
            &&& json_string_value(rendered_json) == Some(markdown_html(source))
        }),
{
    lemma_json_for_script_reads_back(source);
    lemma_json_for_script_reads_back(markdown_html(source));
}

/// Assembles the preview page of `source` around the script-safe JSON literals
/// of the source text and of its rendered HTML.
pub fn assemble_preview_html(source: &str, source_json: &str, rendered_json: &str) -> (r: String)
    ensures
        r@ == preview_page(escape(source@), has_math(source@), source_json@, rendered_json@),
{
    let escaped_source = escape_html(source);
    let math = contains_math_delimiter(source);
    let mut page = String::new();
    page.append(PAGE_HEAD);
    page.append(escaped_source.as_str());
    page.append(PAGE_AFTER_SOURCE);
    if math {
        page.append(MATHJAX_SCRIPT);
    }
    page.append(PAGE_SOURCE_JSON);
    page.append(source_json);
    page.append(PAGE_RENDERED_JSON);
    page.append(rendered_json);
    page.append(PAGE_HAS_MATH);
    if math {
        page.append("true");
    } else {
        page.append("false");
    }
    page.append(PAGE_TAIL);
    assert(page@ =~= preview_page(escape(source@), math, source_json@, rendered_json@));
    page
}

/// Renders `source` as a self-contained HTML preview page.
pub fn render_preview_html(source: &str) -> (r: String)
    ensures
        r@ == preview_of(source@),
{
    let source_json = json_for_script(source);
    let html = markdown_to_html(source);
    let rendered_json = json_for_script(html.as_str());
    assemble_preview_html(source, source_json.as_str(), rendered_json.as_str())
}

// ---------------------------------------------------------------------------
// The page's file name
// ---------------------------------------------------------------------------

/// The decimal digit for `d` below ten.
pub open spec fn digit_char(d: nat) -> char {
    (d + 48) as char
}

/// The decimal numeral of `n`, without leading zeros.
pub open spec fn decimal(n: nat) -> Seq<char>
    decreases n,
{
    if n < 10 {
        seq![digit_char(n)]
    } else {
        decimal(n / 10) + seq![digit_char(n % 10)]
    }
}

/// The name `preview-<pid>-<millis>.html` of the file that a preview page is
/// written to, for a process id and a time in milliseconds.
pub open spec fn file_name(pid: nat, millis: nat) -> Seq<char> {
    "preview-"@ + decimal(pid) + seq!['-'] + decimal(millis) + ".html"@
}

/// Appends the decimal numeral of `n` to `out`.
fn push_decimal(out: &mut String, n: u128)
    ensures
        final(out)@ == old(out)@ + decimal(n as nat),
    decreases n,
{
    if n >= 10 {
        push_decimal(out, n / 10);
    }
    let d = (n % 10) as u8;
    let c = (d + 48) as char;
    assert(c == digit_char((n % 10) as nat));
    out.push(c);
    assert(out@ =~= old(out)@ + decimal(n as nat));
}

/// The file name of a preview page written by process `pid` at `millis`
/// milliseconds since the Unix epoch.
pub fn preview_file_name(pid: u32, millis: u128) -> (r: String)
    ensures
        r@ == file_name(pid as nat, millis as nat),
{
    let mut r = String::new();
    r.append("preview-");
    push_decimal(&mut r, pid as u128);
    r.push('-');
    push_decimal(&mut r, millis);
    r.append(".html");
    assert(r@ =~= file_name(pid as nat, millis as nat));
    r
}

/// The preview page for a selection, unless the selection is empty or only
/// whitespace.
pub fn preview_for_selection(text: &str) -> (r: Option<String>)
    ensures
        r is None <==> all_ws(text@),
        r matches Some(page) ==> page@ == preview_of(text@),
{
    match selection_text_for_preview(text) {
        None => None,
        Some(source) => Some(render_preview_html(source)),
    }
}

} // verus!
