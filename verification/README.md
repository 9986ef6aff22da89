# markdown_preview

Renders a selection of Markdown text as a self-contained HTML page: the
Markdown is turned into HTML locally, the source and the HTML are embedded as
JSON string literals that cannot end the page's `<script>` element, and the
MathJax renderer is loaded only when the text holds TeX math.

- `src/` is the library, verified with Verus. Each public function states what
  it returns over `Seq<char>` specifications; the laws (escaping is invertible
  and adds no markup, a script-safe JSON literal holds no `</` and reads back
  as its string, blank text and only blank text renders as an empty
  paragraph, rendered Markdown writes no markup but its own tags, inline code
  and emphasis tags balance, ...) are proof functions beside the code they
  speak of.
- `app/` writes the page to a private temporary file and opens it in the
  browser.
- `tests/` runs the library on concrete inputs.
