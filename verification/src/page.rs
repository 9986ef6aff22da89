//! The fixed text of the preview page, in the pieces between the parts that
//! depend on the previewed text.
use vstd::prelude::*;

verus! {

/// The page up to the escaped source text inside `<noscript><pre>`.
pub const PAGE_HEAD: &'static str = r#"<!doctype html>
<html lang="en">
<head>
<meta charset="utf-8">
<meta name="viewport" content="width=device-width, initial-scale=1">
<title>Kaku Markdown Preview</title>
<style>
:root {
  color-scheme: light dark;
  --bg: #f7f7f4;
  --fg: #1d1d1f;
  --muted: #686868;
  --border: rgba(0, 0, 0, 0.12);
  --code: rgba(0, 0, 0, 0.06);
}
@media (prefers-color-scheme: dark) {
  :root {
    --bg: #171717;
    --fg: #f4f2ec;
    --muted: #aaa59a;
    --border: rgba(255, 255, 255, 0.16);
    --code: rgba(255, 255, 255, 0.08);
  }
}
body {
  margin: 0;
  background: var(--bg);
  color: var(--fg);
  font: 16px/1.58 -apple-system, BlinkMacSystemFont, "SF Pro Text", "Helvetica Neue", Arial, sans-serif;
}
main {
  box-sizing: border-box;
  max-width: 880px;
  min-height: 100vh;
  margin: 0 auto;
  padding: 40px 28px 56px;
}
#preview > :first-child {
  margin-top: 0;
}
h1, h2, h3 {
  line-height: 1.2;
  margin: 1.5em 0 0.55em;
}
p, ul, ol, blockquote, pre, table {
  margin: 0 0 1em;
}
code, pre {
  font-family: "SF Mono", Menlo, Consolas, monospace;
}
pre {
  overflow: auto;
  padding: 14px;
  border-radius: 8px;
  background: var(--code);
}
code {
  padding: 0.12em 0.3em;
  border-radius: 4px;
  background: var(--code);
}
pre code {
  padding: 0;
  background: transparent;
}
blockquote {
  padding-left: 1em;
  border-left: 3px solid var(--border);
  color: var(--muted);
}
table {
  width: 100%;
  border-collapse: collapse;
}
th, td {
  padding: 8px 10px;
  border: 1px solid var(--border);
}
details {
  margin-top: 32px;
  color: var(--muted);
}
details pre {
  color: var(--fg);
  white-space: pre-wrap;
}
.error {
  padding: 12px 14px;
  border: 1px solid var(--border);
  border-radius: 8px;
  color: var(--fg);
}
</style>
</head>
<body>
<main>
<noscript><pre>"#;

/// The page between the escaped source text and the math renderer script.
pub const PAGE_AFTER_SOURCE: &'static str = r#"</pre></noscript>
<article id="preview"></article>
<details>
  <summary>Source</summary>
  <pre id="source"></pre>
</details>
</main>
"#;

/// The page up to the JSON literal of the source text.
pub const PAGE_SOURCE_JSON: &'static str = r#"
<script>
const source = "#;

/// The page between the source JSON literal and the rendered-HTML JSON literal.
pub const PAGE_RENDERED_JSON: &'static str = r#";
const renderedHtml = "#;

/// The page between the rendered-HTML JSON literal and the math flag.
pub const PAGE_HAS_MATH: &'static str = r#";
const preview = document.getElementById('preview');
const sourceNode = document.getElementById('source');
sourceNode.textContent = source;

function escapeHtml(value) {
  return value
    .replaceAll('&', '&amp;')
    .replaceAll('<', '&lt;')
    .replaceAll('>', '&gt;')
    .replaceAll('"', '&quot;')
    .replaceAll("'", '&#39;');
}

function renderFallback(message) {
  preview.innerHTML =
    '<div class="error">' + escapeHtml(message) + '</div><pre>' + escapeHtml(source) + '</pre>';
}

window.addEventListener('load', async () => {
  try {
    preview.innerHTML = renderedHtml;
    if (window.MathJax && window.MathJax.typesetPromise) {
      await window.MathJax.typesetPromise([preview]);
    } else if ("#;

/// The page after the math flag.
pub const PAGE_TAIL: &'static str = r#") {
      renderFallback('Math renderer failed to load. Showing the original text.');
    }
  } catch (error) {
    renderFallback('Preview failed. Showing the original text.');
  }
});
</script>
</body>
</html>
"#;

/// The script that configures and loads the MathJax renderer.
pub const MATHJAX_SCRIPT: &'static str = r#"
<script>
window.MathJax = {
  startup: { typeset: false },
  tex: {
    inlineMath: [['$', '$'], ['\\(', '\\)']],
    displayMath: [['$$', '$$'], ['\\[', '\\]']]
  }
};
</script>
<script defer src="https://cdn.jsdelivr.net/npm/mathjax@3/es5/tex-chtml.js"></script>
"#;

} // verus!
