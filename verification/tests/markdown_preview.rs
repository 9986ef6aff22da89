use markdown_preview::{
    contains_math_delimiter, escape_html, markdown_to_html, render_preview_html,
    selection_text_for_preview,
};

#[test]
fn missing_selection_returns_none() {
    assert_eq!(selection_text_for_preview(" \n\t"), None);
    assert_eq!(selection_text_for_preview("hello"), Some("hello"));
}

#[test]
fn preview_html_escapes_fallback_source() {
    let html = render_preview_html("<script>alert('x')</script> & text");
    assert!(html.contains("&lt;script&gt;alert(&#39;x&#39;)&lt;/script&gt; &amp; text"));
}

#[test]
fn preview_html_escapes_script_breakout() {
    let html = render_preview_html("</script><script>alert(1)</script>");
    assert!(html.contains("<\\/script><script>alert(1)<\\/script>"));
    assert!(!html.contains("const source = \"</script><script>alert(1)</script>\";"));
}

#[test]
fn html_escape_covers_special_characters() {
    assert_eq!(
        escape_html("<tag a=\"b\">Tom & 'Jerry'</tag>"),
        "&lt;tag a=&quot;b&quot;&gt;Tom &amp; &#39;Jerry&#39;&lt;/tag&gt;"
    );
}

#[test]
fn detects_markdown_math_delimiters() {
    assert!(contains_math_delimiter("inline $x + y$ math"));
    assert!(contains_math_delimiter("block\n$$\nx^2\n$$"));
    assert!(contains_math_delimiter("\\[x^2\\]"));
    assert!(!contains_math_delimiter("one price is $5 only"));
    assert!(!contains_math_delimiter(r"escaped \$x\$ only"));
}

#[test]
fn renders_basic_markdown_locally() {
    let html = markdown_to_html("# Title\n\n- **one**\n- `two`\n\n```sh\necho <ok>\n```");

    assert!(html.contains("<h1>Title</h1>"));
    assert!(html.contains("<li><strong>one</strong></li>"));
    assert!(html.contains("<li><code>two</code></li>"));
    assert!(html.contains("echo &lt;ok&gt;"));
}

#[test]
fn preview_without_math_uses_no_remote_renderer() {
    let html = render_preview_html("# Local only");

    assert!(!html.contains("marked.min.js"));
    assert!(!html.contains("mathjax@3"));
}

#[test]
fn preview_with_math_loads_mathjax() {
    let html = render_preview_html("Area is $x^2$.");

    assert!(html.contains("mathjax@3"));
}
