//! HTML escaping of text.
use vstd::prelude::*;
use crate::text::{
    chars_of, lemma_replace_char_absent, lemma_replace_char_append, lemma_replace_char_single,
    lemma_replace_after_piece, matches_at, replace_all,
};

verus! {

/// What one character becomes in escaped HTML text.
pub open spec fn html_entity(c: char) -> Seq<char> {
    if c == '&' {
        "&amp;"@
    } else if c == '<' {
        "&lt;"@
    } else if c == '>' {
        "&gt;"@
    } else if c == '"' {
        "&quot;"@
    } else if c == '\'' {
        "&#39;"@
    } else {
        seq![c]
    }
}

/// `s` with each of `& < > " '` replaced by its entity.
pub open spec fn escape(s: Seq<char>) -> Seq<char>
    decreases s.len(),
{
    if s.len() == 0 {
        seq![]
    } else {
        escape(s.drop_last()) + html_entity(s.last())
    }
}

/// A character that HTML escaping rewrites.
pub open spec fn is_html_special(c: char) -> bool {
    c == '&' || c == '<' || c == '>' || c == '"' || c == '\''
}

/// Escaping a concatenation escapes each part.
pub proof fn lemma_escape_append(a: Seq<char>, b: Seq<char>)
    ensures
        escape(a + b) == escape(a) + escape(b),
    decreases b.len(),
{
    if b.len() == 0 {
        assert(a + b =~= a);
        assert(escape(b) =~= Seq::<char>::empty());
        assert(escape(a) + escape(b) =~= escape(a));
    } else {
        lemma_escape_append(a, b.drop_last());
        assert((a + b).drop_last() =~= a + b.drop_last());
        assert((a + b).last() == b.last());
    }
}

/// Escaping never shortens a text.
pub proof fn lemma_escape_len(s: Seq<char>)
    ensures
        escape(s).len() >= s.len(),
    decreases s.len(),
{
    reveal_strlit("&amp;");
    reveal_strlit("&lt;");
    reveal_strlit("&gt;");
    reveal_strlit("&quot;");
    reveal_strlit("&#39;");
    if s.len() > 0 {
        lemma_escape_len(s.drop_last());
    }
}

/// Escaped text holds none of `<`, `>`, `"` and `'`: it cannot open or close a
/// tag or an attribute value.
pub proof fn lemma_escape_has_no_markup(s: Seq<char>)
    ensures
        forall|i: int|
            0 <= i < escape(s).len() ==> {
                let c = #[trigger] escape(s)[i];
                c != '<' && c != '>' && c != '"' && c != '\''
            },
    decreases s.len(),
{
    reveal_strlit("&amp;");
    reveal_strlit("&lt;");
    reveal_strlit("&gt;");
    reveal_strlit("&quot;");
    reveal_strlit("&#39;");
    if s.len() > 0 {
        lemma_escape_has_no_markup(s.drop_last());
        let e = escape(s.drop_last());
        let h = html_entity(s.last());
        assert forall|i: int| 0 <= i < escape(s).len() implies {
            let c = #[trigger] escape(s)[i];
            c != '<' && c != '>' && c != '"' && c != '\''
        } by {
            if i >= e.len() {
                assert(escape(s)[i] == h[i - e.len()]);
            } else {
                assert(escape(s)[i] == e[i]);
            }
        }
    }
}

/// Text without `& < > " '` is left as it is.
pub proof fn lemma_escape_plain(s: Seq<char>)
    requires
        forall|i: int| 0 <= i < s.len() ==> !is_html_special(#[trigger] s[i]),
    ensures
        escape(s) == s,
    decreases s.len(),
{
    if s.len() > 0 {
        lemma_escape_plain(s.drop_last());
        assert(!is_html_special(s[s.len() - 1]));
        assert(s.drop_last().push(s.last()) =~= s);
    } else {
        assert(escape(s) =~= s);
    }
}

/// Reads escaped text back: each of the five entities that escaping writes
/// becomes its character again; everything else is kept.
pub open spec fn unescape(s: Seq<char>) -> Seq<char>
    decreases s.len(),
{
    if s.len() == 0 {
        seq![]
    } else if s.len() >= 5 && s.take(5) == "&amp;"@ {
        seq!['&'] + unescape(s.skip(5))
    } else if s.len() >= 4 && s.take(4) == "&lt;"@ {
        seq!['<'] + unescape(s.skip(4))
    } else if s.len() >= 4 && s.take(4) == "&gt;"@ {
        seq!['>'] + unescape(s.skip(4))
    } else if s.len() >= 6 && s.take(6) == "&quot;"@ {
        seq!['"'] + unescape(s.skip(6))
    } else if s.len() >= 5 && s.take(5) == "&#39;"@ {
        seq!['\''] + unescape(s.skip(5))
    } else {
        seq![s[0]] + unescape(s.drop_first())
    }
}

/// Unescaping what one character escapes to gives that character, whatever
/// follows it.
proof fn lemma_unescape_entity(c: char, rest: Seq<char>)
    ensures
        unescape(html_entity(c) + rest) == seq![c] + unescape(rest),
{
    reveal_strlit("&amp;");
    reveal_strlit("&lt;");
    reveal_strlit("&gt;");
    reveal_strlit("&quot;");
    reveal_strlit("&#39;");
    let s = html_entity(c) + rest;
    let h = html_entity(c);
    assert(s.take(h.len() as int) =~= h);
    assert(s.skip(h.len() as int) =~= rest);
    if c == '&' || c == '<' || c == '>' || c == '"' || c == '\'' {
        assert(s[0] == '&');
        assert(s[1] == h[1]);
        if s.len() >= 4 {
            assert(s.take(4)[1] == s[1]);
        }
        if s.len() >= 5 {
            assert(s.take(5)[1] == s[1]);
        }
        if s.len() >= 6 {
            assert(s.take(6)[1] == s[1]);
        }
        if c == '&' {
            assert(s.take(5) =~= "&amp;"@);
        } else if c == '<' {
            assert(s.take(4) =~= "&lt;"@);
        } else if c == '>' {
            assert(s.take(4) =~= "&gt;"@);
        } else if c == '"' {
            assert(s.take(6) =~= "&quot;"@);
        } else {
            if s.len() >= 4 {
                assert(s.take(4)[2] == s[2]);
            }
            assert(s.take(5) =~= "&#39;"@);
        }
    } else {
        assert(s[0] == c);
        if s.len() >= 4 {
            assert(s.take(4)[0] == s[0]);
        }
        if s.len() >= 5 {
            assert(s.take(5)[0] == s[0]);
        }
        if s.len() >= 6 {
            assert(s.take(6)[0] == s[0]);
        }
        assert(s.drop_first() =~= rest);
    }
}

/// Escaping loses nothing: unescaping escaped text gives the text back.
pub proof fn lemma_unescape_escape(s: Seq<char>)
    ensures
        unescape(escape(s)) == s,
    decreases s.len(),
{
    if s.len() > 0 {
        let t = s.drop_first();
        lemma_unescape_escape(t);
        lemma_escape_append(seq![s[0]], t);
        assert(seq![s[0]] + t =~= s);
        assert(escape(seq![s[0]]) =~= html_entity(s[0])) by {
            assert(seq![s[0]].drop_last() =~= Seq::<char>::empty());
            assert(escape(Seq::<char>::empty()) + html_entity(s[0]) =~= html_entity(s[0]));
        }
        lemma_unescape_entity(s[0], escape(t));
        assert(seq![s[0]] + t =~= s);
    } else {
        assert(escape(s) =~= Seq::<char>::empty());
    }
}

/// The replacements of `&`, `<`, `>`, `"` and `'` by their entities, made one
/// after the other over the whole text, in that order.
pub open spec fn escape_by_replacements(s: Seq<char>) -> Seq<char> {
    replace_all(
        replace_all(
            replace_all(
                replace_all(replace_all(s, seq!['&'], "&amp;"@), seq!['<'], "&lt;"@),
                seq!['>'],
                "&gt;"@,
            ),
            seq!['"'],
            "&quot;"@,
        ),
        seq!['\''],
        "&#39;"@,
    )
}

proof fn lemma_replacements_append(a: Seq<char>, b: Seq<char>)
    ensures
        escape_by_replacements(a + b) == escape_by_replacements(a) + escape_by_replacements(b),
{
    let r1a = replace_all(a, seq!['&'], "&amp;"@);
    let r1b = replace_all(b, seq!['&'], "&amp;"@);
    lemma_replace_char_append(a, b, '&', "&amp;"@);
    let r2a = replace_all(r1a, seq!['<'], "&lt;"@);
    let r2b = replace_all(r1b, seq!['<'], "&lt;"@);
    lemma_replace_char_append(r1a, r1b, '<', "&lt;"@);
    let r3a = replace_all(r2a, seq!['>'], "&gt;"@);
    let r3b = replace_all(r2b, seq!['>'], "&gt;"@);
    lemma_replace_char_append(r2a, r2b, '>', "&gt;"@);
    let r4a = replace_all(r3a, seq!['"'], "&quot;"@);
    let r4b = replace_all(r3b, seq!['"'], "&quot;"@);
    lemma_replace_char_append(r3a, r3b, '"', "&quot;"@);
    lemma_replace_char_append(r4a, r4b, '\'', "&#39;"@);
}

proof fn lemma_replacements_single(x: char)
    ensures
        escape_by_replacements(seq![x]) == html_entity(x),
{
    reveal_strlit("&amp;");
    reveal_strlit("&lt;");
    reveal_strlit("&gt;");
    reveal_strlit("&quot;");
    reveal_strlit("&#39;");
    let amp = "&amp;"@;
    let lt = "&lt;"@;
    let gt = "&gt;"@;
    let quot = "&quot;"@;
    let apos = "&#39;"@;
    lemma_replace_char_single(x, '&', amp);
    if x == '&' {
        lemma_replace_char_absent(amp, '<', lt);
        lemma_replace_char_absent(amp, '>', gt);
        lemma_replace_char_absent(amp, '"', quot);
        lemma_replace_char_absent(amp, '\'', apos);
    } else {
        lemma_replace_char_single(x, '<', lt);
        if x == '<' {
            lemma_replace_char_absent(lt, '>', gt);
            lemma_replace_char_absent(lt, '"', quot);
            lemma_replace_char_absent(lt, '\'', apos);
        } else {
            lemma_replace_char_single(x, '>', gt);
            if x == '>' {
                lemma_replace_char_absent(gt, '"', quot);
                lemma_replace_char_absent(gt, '\'', apos);
            } else {
                lemma_replace_char_single(x, '"', quot);
                if x == '"' {
                    lemma_replace_char_absent(quot, '\'', apos);
                } else {
                    lemma_replace_char_single(x, '\'', apos);
                }
            }
        }
    }
}

/// Escaping is the five replacements of `&`, `<`, `>`, `"` and `'` by their
/// entities, made one after the other in that order.
pub proof fn lemma_escape_is_replacements(s: Seq<char>)
    ensures
        escape(s) == escape_by_replacements(s),
    decreases s.len(),
{
    if s.len() == 0 {
        assert(replace_all(s, seq!['&'], "&amp;"@) == s);
        assert(replace_all(s, seq!['<'], "&lt;"@) == s);
        assert(replace_all(s, seq!['>'], "&gt;"@) == s);
        assert(replace_all(s, seq!['"'], "&quot;"@) == s);
        assert(replace_all(s, seq!['\''], "&#39;"@) == s);
    } else {
        let d = s.drop_last();
        lemma_escape_is_replacements(d);
        assert(d + seq![s.last()] =~= s);
        lemma_replacements_append(d, seq![s.last()]);
        lemma_replacements_single(s.last());
    }
}

/// The replacements of `&lt;`, `&gt;`, `&quot;`, `&#39;` and `&amp;` by their
/// characters, made one after the other over the whole text, in that order.
pub open spec fn unescape_by_replacements(t: Seq<char>) -> Seq<char> {
    replace_all(
        replace_all(
            replace_all(
                replace_all(replace_all(t, "&lt;"@, seq!['<']), "&gt;"@, seq!['>']),
                "&quot;"@,
                seq!['"'],
            ),
            "&#39;"@,
            seq!['\''],
        ),
        "&amp;"@,
        seq!['&'],
    )
}

/// The entity that the `k`-th of those replacements reads.
pub open spec fn entity_at(k: nat) -> Seq<char> {
    if k == 0 {
        "&lt;"@
    } else if k == 1 {
        "&gt;"@
    } else if k == 2 {
        "&quot;"@
    } else if k == 3 {
        "&#39;"@
    } else {
        "&amp;"@
    }
}

/// The character that the `k`-th of those replacements writes.
pub open spec fn char_at(k: nat) -> char {
    if k == 0 {
        '<'
    } else if k == 1 {
        '>'
    } else if k == 2 {
        '"'
    } else if k == 3 {
        '\''
    } else {
        '&'
    }
}

/// The entity of `c` has been read back by the first `k` replacements.
pub open spec fn read_back(c: char, k: nat) -> bool {
    ||| (c == '<' && k > 0)
    ||| (c == '>' && k > 1)
    ||| (c == '"' && k > 2)
    ||| (c == '\'' && k > 3)
    ||| (c == '&' && k > 4)
}

/// Escaped text after the first `k` replacements that read it back.
pub open spec fn partly_read(s: Seq<char>, k: nat) -> Seq<char>
    decreases s.len(),
{
    if s.len() == 0 {
        seq![]
    } else {
        (if read_back(s[0], k) {
            seq![s[0]]
        } else {
            html_entity(s[0])
        }) + partly_read(s.drop_first(), k)
    }
}

proof fn lemma_partly_read_step(s: Seq<char>, k: nat)
    requires
        k < 5,
    ensures
        replace_all(partly_read(s, k), entity_at(k), seq![char_at(k)]) == partly_read(s, k + 1),
    decreases s.len(),
{
    reveal_strlit("&amp;");
    reveal_strlit("&lt;");
    reveal_strlit("&gt;");
    reveal_strlit("&quot;");
    reveal_strlit("&#39;");
    let pat = entity_at(k);
    let rep = seq![char_at(k)];
    if s.len() == 0 {
        assert(replace_all(partly_read(s, k), pat, rep) == partly_read(s, k));
    } else {
        let c = s[0];
        let piece = if read_back(c, k) {
            seq![c]
        } else {
            html_entity(c)
        };
        let rest = partly_read(s.drop_first(), k);
        lemma_partly_read_step(s.drop_first(), k);
        let x = piece + rest;
        assert(partly_read(s, k) == x);
        if c == char_at(k) {
            assert(piece == pat);
            assert(matches_at(x, pat, 0)) by {
                assert forall|q: int| 0 <= q < pat.len() implies x[0 + q] == #[trigger] pat[q] by {
                    assert(x[q] == piece[q]);
                }
            }
            assert(x.skip(pat.len() as int) =~= rest);
        } else {
            assert(read_back(c, k + 1) == read_back(c, k));
            assert(!matches_at(x, pat, 0)) by {
                if matches_at(x, pat, 0) {
                    assert(x[0int + 0] == pat[0]);
                    assert(x[0] == piece[0]);
                    assert(x[0int + 1] == pat[1]);
                    assert(x[1] == piece[1]);
                }
            }
            lemma_replace_after_piece(piece, rest, pat, rep);
        }
    }
}

proof fn lemma_partly_read_ends(s: Seq<char>)
    ensures
        partly_read(s, 0) == escape(s),
        partly_read(s, 5) == s,
    decreases s.len(),
{
    if s.len() > 0 {
        let t = s.drop_first();
        lemma_partly_read_ends(t);
        lemma_escape_append(seq![s[0]], t);
        assert(seq![s[0]] + t =~= s);
        assert(escape(seq![s[0]]) =~= html_entity(s[0])) by {
            assert(seq![s[0]].drop_last() =~= Seq::<char>::empty());
            assert(escape(Seq::<char>::empty()) + html_entity(s[0]) =~= html_entity(s[0]));
        }
        assert(read_back(s[0], 5) || html_entity(s[0]) == seq![s[0]]);
    } else {
        assert(escape(s) =~= Seq::<char>::empty());
    }
}

/// The chained replacements that read entities back — `&lt;`, `&gt;`,
/// `&quot;`, `&#39;`, then `&amp;` — turn escaped text into the text again.
pub proof fn lemma_replacements_unescape(s: Seq<char>)
    ensures
        unescape_by_replacements(escape(s)) == s,
{
    lemma_partly_read_ends(s);
    lemma_partly_read_step(s, 0);
    lemma_partly_read_step(s, 1);
    lemma_partly_read_step(s, 2);
    lemma_partly_read_step(s, 3);
    lemma_partly_read_step(s, 4);
}

/// Appends the escaped form of `c` to `out`.
fn push_entity(out: &mut String, c: char)
    ensures
        final(out)@ == old(out)@ + html_entity(c),
{
    if c == '&' {
        out.append("&amp;");
    } else if c == '<' {
        out.append("&lt;");
    } else if c == '>' {
        out.append("&gt;");
    } else if c == '"' {
        out.append("&quot;");
    } else if c == '\'' {
        out.append("&#39;");
    } else {
        out.push(c);
        assert(old(out)@.push(c) =~= old(out)@ + seq![c]);
    }
}

/// Appends the escaped form of `s` to `out`.
pub fn push_escaped(out: &mut String, s: &Vec<char>)
    ensures
        final(out)@ == old(out)@ + escape(s@),
{
    let mut i: usize = 0;
    while i < s.len()
        invariant
            i <= s.len(),
            out@ == old(out)@ + escape(s@.take(i as int)),
        decreases s.len() - i,
    {
        push_entity(out, s[i]);
        proof {
            let t = s@.take(i + 1);
            assert(t.drop_last() =~= s@.take(i as int));
            assert(t.last() == s@[i as int]);
        }
        i = i + 1;
    }
    assert(s@.take(s.len() as int) =~= s@);
}

/// The escaped form of the characters `s`.
pub fn escape_chars(s: &Vec<char>) -> (r: String)
    ensures
        r@ == escape(s@),
{
    let mut out = String::new();
    push_escaped(&mut out, s);
    assert(Seq::<char>::empty() + escape(s@) =~= escape(s@));
    out
}

/// Escapes `&`, `<`, `>`, `"` and `'` for use in HTML text and attribute values.
pub fn escape_html(source: &str) -> (r: String)
    ensures
        r@ == escape(source@),
{
    let cs = chars_of(source);
    escape_chars(&cs)
}

} // verus!
