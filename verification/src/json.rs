//! JSON string literals: what serde_json writes for a string, made safe to
//! stand inside a `<script>` element, and read back.
use vstd::prelude::*;
use crate::text::{
    chars_of, lemma_replace_char_absent, lemma_replace_char_append, lemma_replace_char_single,
    matches_at, replace_all,
};

verus! {

// ---------------------------------------------------------------------------
// JSON literals for a script element
// ---------------------------------------------------------------------------

/// The lowercase hexadecimal digit for `d` below sixteen.
pub open spec fn hex_digit(d: int) -> char {
    if d < 10 {
        (48 + d) as char
    } else {
        (87 + d) as char
    }
}

/// How serde_json writes one character inside a string literal: `"` and `\`
/// behind a backslash, the control characters backspace, tab, line feed, form
/// feed and carriage return as `\b \t \n \f \r`, the other characters below
/// U+0020 as `\u00xx` in lowercase hexadecimal, and every other character as
/// it is.
pub open spec fn json_char(c: char) -> Seq<char> {
    if c == '"' {
        seq!['\\', '"']
    } else if c == '\\' {
        seq!['\\', '\\']
    } else if c == '\u{08}' {
        seq!['\\', 'b']
    } else if c == '\t' {
        seq!['\\', 't']
    } else if c == '\n' {
        seq!['\\', 'n']
    } else if c == '\u{0C}' {
        seq!['\\', 'f']
    } else if c == '\r' {
        seq!['\\', 'r']
    } else if (c as int) < 0x20 {
        seq!['\\', 'u', '0', '0', hex_digit((c as int) / 16), hex_digit((c as int) % 16)]
    } else {
        seq![c]
    }
}

/// The characters of `s`, each written as serde_json writes it in a string.
pub open spec fn json_body(s: Seq<char>) -> Seq<char>
    decreases s.len(),
{
    if s.len() == 0 {
        seq![]
    } else {
        json_char(s[0]) + json_body(s.drop_first())
    }
}

/// What `serde_json::to_string` gives for a string: the JSON string literal
/// that denotes it, the written characters between double quotes.
pub open spec fn json_string_literal(s: Seq<char>) -> Seq<char> {
    seq!['"'] + json_body(s) + seq!['"']
}

/// Calls `serde_json::to_string` on a string. The contract states what
/// serde_json 1.0.154 writes for a `str` (`format_escaped_str` with its escape
/// table and `write_char_escape`): a double quote, each character as
/// `json_char` says, a double quote. For a `str` the call cannot fail: the
/// source serializes into a `Vec<u8>`, which never reports a write error.
#[verifier::external_body]
fn serialize_json_string(s: &str) -> (r: String)
    ensures
        r@ == json_string_literal(s@),
{
    serde_json::to_string(s).expect("serializing a string to JSON cannot fail")
}

/// `json` with every `</` written as `<\/` and the line and paragraph
/// separators U+2028 and U+2029 written as `\u2028` and `\u2029`, so that the
/// text can stand inside a `<script>` element.
pub open spec fn script_safe(json: Seq<char>) -> Seq<char>
    decreases json.len(),
{
    if json.len() == 0 {
        seq![]
    } else if json.len() >= 2 && json[0] == '<' && json[1] == '/' {
        "<\\/"@ + script_safe(json.skip(2))
    } else if json[0] == '\u{2028}' {
        "\\u2028"@ + script_safe(json.drop_first())
    } else if json[0] == '\u{2029}' {
        "\\u2029"@ + script_safe(json.drop_first())
    } else {
        seq![json[0]] + script_safe(json.drop_first())
    }
}

/// What `script_safe` begins with.
proof fn lemma_script_safe_first(json: Seq<char>)
    ensures
        json.len() == 0 ==> script_safe(json).len() == 0,
        json.len() > 0 ==> script_safe(json).len() > 0 && script_safe(json)[0] == if json[0]
            == '\u{2028}' || json[0] == '\u{2029}' {
            '\\'
        } else {
            json[0]
        },
{
    reveal_strlit("<\\/");
    reveal_strlit("\\u2028");
    reveal_strlit("\\u2029");
}

/// A JSON literal made script-safe holds no `</`, so it cannot end the script
/// element it stands in, and no U+2028 or U+2029.
pub proof fn lemma_script_safe_no_breakout(json: Seq<char>)
    ensures
        forall|i: int|
            0 <= i < script_safe(json).len() ==> #[trigger] script_safe(json)[i] != '\u{2028}'
                && script_safe(json)[i] != '\u{2029}',
        forall|i: int|
            0 <= i < script_safe(json).len() - 1 ==> !(#[trigger] script_safe(json)[i] == '<'
                && script_safe(json)[i + 1] == '/'),
    decreases json.len(),
{
    reveal_strlit("<\\/");
    reveal_strlit("\\u2028");
    reveal_strlit("\\u2029");
    if json.len() > 0 {
        let r = script_safe(json);
        let (head, tail) = if json.len() >= 2 && json[0] == '<' && json[1] == '/' {
            ("<\\/"@, json.skip(2))
        } else if json[0] == '\u{2028}' {
            ("\\u2028"@, json.drop_first())
        } else if json[0] == '\u{2029}' {
            ("\\u2029"@, json.drop_first())
        } else {
            (seq![json[0]], json.drop_first())
        };
        assert(r == head + script_safe(tail));
        lemma_script_safe_no_breakout(tail);
        lemma_script_safe_first(tail);
        let rt = script_safe(tail);
        assert forall|i: int| 0 <= i < r.len() implies #[trigger] r[i] != '\u{2028}' && r[i]
            != '\u{2029}' by {
            if i >= head.len() {
                assert(r[i] == rt[i - head.len()]);
            }
        }
        assert forall|i: int| 0 <= i < r.len() - 1 implies !(#[trigger] r[i] == '<' && r[i + 1]
            == '/') by {
            if i >= head.len() {
                assert(r[i] == rt[i - head.len()]);
                assert(r[i + 1] == rt[i + 1 - head.len()]);
            } else if i + 1 < head.len() {
            } else {
                // the last character of the head, followed by the first of the rest
                assert(r[i + 1] == rt[0]);
                if head == seq![json[0]] && json[0] == '<' {
                    assert(json.len() >= 2);
                    assert(tail[0] == json[1]);
                }
            }
        }
    }
}

/// Making a JSON literal script-safe is the three replacements, one after the
/// other, of `</` by `<\/`, of U+2028 by `\u2028` and of U+2029 by `\u2029`.
pub proof fn lemma_script_safe_is_replacements(json: Seq<char>)
    ensures
        script_safe(json) == replace_all(
            replace_all(
                replace_all(json, seq!['<', '/'], "<\\/"@),
                seq!['\u{2028}'],
                "\\u2028"@,
            ),
            seq!['\u{2029}'],
            "\\u2029"@,
        ),
    decreases json.len(),
{
    reveal_strlit("<\\/");
    reveal_strlit("\\u2028");
    reveal_strlit("\\u2029");
    let slash = seq!['<', '/'];
    let r1 = "<\\/"@;
    let r2 = "\\u2028"@;
    let r3 = "\\u2029"@;
    let a = '\u{2028}';
    let b = '\u{2029}';
    if json.len() == 0 {
        assert(replace_all(json, slash, r1) == json);
    } else {
        let (first, rest) = if matches_at(json, slash, 0) {
            (r1, json.skip(2))
        } else {
            (seq![json[0]], json.drop_first())
        };
        lemma_script_safe_is_replacements(rest);
        let s1 = replace_all(json, slash, r1);
        assert(s1 == first + replace_all(rest, slash, r1));
        lemma_replace_char_append(first, replace_all(rest, slash, r1), a, r2);
        let f2 = replace_all(first, seq![a], r2);
        lemma_replace_char_append(f2, replace_all(replace_all(rest, slash, r1), seq![a], r2), b, r3);
        if matches_at(json, slash, 0) {
            assert(json[0int] == slash[0] && json[1int] == slash[1]);
            lemma_replace_char_absent(r1, a, r2);
            lemma_replace_char_absent(r1, b, r3);
        } else {
            if json.len() >= 2 && json[0] == '<' && json[1] == '/' {
                assert(matches_at(json, slash, 0));
            }
            lemma_replace_char_single(json[0], a, r2);
            if json[0] == a {
                lemma_replace_char_absent(r2, b, r3);
            } else {
                lemma_replace_char_single(json[0], b, r3);
            }
        }
    }
}

/// Makes the JSON literal `json` safe to stand inside a `<script>` element.
pub fn script_safe_json(json: &str) -> (r: String)
    ensures
        r@ == script_safe(json@),
{
    let cs = chars_of(json);
    let mut out = String::new();
    let mut i: usize = 0;
    assert(cs@.skip(0) =~= cs@);
    assert(Seq::<char>::empty() + script_safe(cs@) =~= script_safe(cs@));
    while i < cs.len()
        invariant
            i <= cs.len(),
            out@ + script_safe(cs@.skip(i as int)) == script_safe(cs@),
        decreases cs.len() - i,
    {
        let ghost o = out@;
        let ghost rest = cs@.skip(i as int);
        assert(rest[0] == cs@[i as int]);
        if i + 1 < cs.len() && cs[i] == '<' && cs[i + 1] == '/' {
            assert(rest[1] == cs@[i + 1]);
            assert(rest.skip(2) =~= cs@.skip(i + 2));
            out.append("<\\/");
            assert(out@ + script_safe(cs@.skip(i + 2)) =~= o + script_safe(rest));
            i = i + 2;
        } else {
            assert(rest.drop_first() =~= cs@.skip(i + 1));
            let c = cs[i];
            if c == '\u{2028}' {
                out.append("\\u2028");
            } else if c == '\u{2029}' {
                out.append("\\u2029");
            } else {
                out.push(c);
                assert(o.push(c) =~= o + seq![c]);
            }
            assert(out@ + script_safe(cs@.skip(i + 1)) =~= o + script_safe(rest));
            i = i + 1;
        }
    }
    assert(cs@.skip(cs.len() as int) =~= Seq::<char>::empty());
    assert(out@ + Seq::<char>::empty() =~= out@);
    out
}

/// The JSON string literal of `source`, made safe to stand inside a
/// `<script>` element.
pub fn json_for_script(source: &str) -> (r: String)
    ensures
        r@ == script_safe(json_string_literal(source@)),
        json_string_value(r@) == Some(source@),
{
    let json = serialize_json_string(source);
    proof {
        lemma_json_for_script_reads_back(source@);
    }
    script_safe_json(json.as_str())
}


// ---------------------------------------------------------------------------
// Reading a JSON string literal back
// ---------------------------------------------------------------------------

/// The value of a hexadecimal digit, in either case.
pub open spec fn hex_value(c: char) -> Option<int> {
    if '0' <= c && c <= '9' {
        Some(c as int - 48)
    } else if 'a' <= c && c <= 'f' {
        Some(c as int - 87)
    } else if 'A' <= c && c <= 'F' {
        Some(c as int - 55)
    } else {
        None
    }
}

/// The character that a one-letter escape `\e` stands for in JSON.
pub open spec fn short_escape(e: char) -> Option<char> {
    if e == '"' {
        Some('"')
    } else if e == '\\' {
        Some('\\')
    } else if e == '/' {
        Some('/')
    } else if e == 'b' {
        Some('\u{08}')
    } else if e == 'f' {
        Some('\u{0C}')
    } else if e == 'n' {
        Some('\n')
    } else if e == 'r' {
        Some('\r')
    } else if e == 't' {
        Some('\t')
    } else {
        None
    }
}

/// The code point of a `\uXXXX` escape at the start of `t`, when there is one
/// and it is not a surrogate (a surrogate pair is not read here).
pub open spec fn unicode_escape(t: Seq<char>) -> Option<char> {
    if t.len() >= 6 && t[0] == '\\' && t[1] == 'u' && hex_value(t[2]) is Some && hex_value(t[3]) is Some
        && hex_value(t[4]) is Some && hex_value(t[5]) is Some {
        let v = 4096 * hex_value(t[2])->0 + 256 * hex_value(t[3])->0 + 16 * hex_value(t[4])->0
            + hex_value(t[5])->0;
        if v < 0xD800 || v >= 0xE000 {
            Some(v as char)
        } else {
            None
        }
    } else {
        None
    }
}

/// The characters that the inside of a JSON string literal denotes, when it is
/// well formed: escapes are read, and an unescaped `"` or control character
/// is refused.
pub open spec fn json_unescape(t: Seq<char>) -> Option<Seq<char>>
    decreases t.len(),
{
    if t.len() == 0 {
        Some(seq![])
    } else if t[0] == '\\' {
        if t.len() >= 2 && short_escape(t[1]) is Some {
            match json_unescape(t.skip(2)) {
                Some(r) => Some(seq![short_escape(t[1])->0] + r),
                None => None,
            }
        } else if unicode_escape(t) is Some {
            match json_unescape(t.skip(6)) {
                Some(r) => Some(seq![unicode_escape(t)->0] + r),
                None => None,
            }
        } else {
            None
        }
    } else if t[0] == '"' || (t[0] as int) < 0x20 {
        None
    } else {
        match json_unescape(t.drop_first()) {
            Some(r) => Some(seq![t[0]] + r),
            None => None,
        }
    }
}

/// The string that a JSON string literal denotes, when it is one.
pub open spec fn json_string_value(lit: Seq<char>) -> Option<Seq<char>> {
    if lit.len() >= 2 && lit[0] == '"' && lit[lit.len() - 1] == '"' {
        json_unescape(lit.subrange(1, lit.len() - 1))
    } else {
        None
    }
}

/// Making text script-safe after a piece that does not end with `<` where
/// the rest starts with `/` makes each safe.
proof fn lemma_script_safe_append(a: Seq<char>, b: Seq<char>)
    requires
        !(a.len() > 0 && b.len() > 0 && a.last() == '<' && b[0] == '/'),
    ensures
        script_safe(a + b) == script_safe(a) + script_safe(b),
    decreases a.len(),
{
    let x = a + b;
    if a.len() == 0 {
        assert(x =~= b);
        assert(script_safe(a) + script_safe(b) =~= script_safe(b));
    } else {
        assert(x[0] == a[0]);
        if a.len() >= 2 {
            assert(x[1] == a[1]);
        }
        if a.len() >= 2 && a[0] == '<' && a[1] == '/' {
            let d = a.skip(2);
            assert(x.skip(2) =~= d + b);
            if d.len() > 0 {
                assert(d.last() == a.last());
            }
            lemma_script_safe_append(d, b);
            assert(script_safe(x) =~= script_safe(a) + script_safe(b));
        } else if a.len() == 1 && a[0] == '<' {
            assert(script_safe(a.drop_first()) == Seq::<char>::empty());
            if b.len() > 0 {
                assert(x[1] == b[0]);
            }
            assert(x.drop_first() =~= b);
            assert(script_safe(x) =~= script_safe(a) + script_safe(b));
        } else {
            let d = a.drop_first();
            assert(x.drop_first() =~= d + b);
            if d.len() > 0 {
                assert(d.last() == a.last());
            }
            lemma_script_safe_append(d, b);
            assert(script_safe(x) =~= script_safe(a) + script_safe(b));
        }
    }
}

/// Text with no `<` and no U+2028 or U+2029 is already script-safe.
proof fn lemma_script_safe_plain(x: Seq<char>)
    requires
        forall|i: int| 0 <= i < x.len() ==> #[trigger] x[i] != '<' && x[i] != '\u{2028}' && x[i]
            != '\u{2029}',
    ensures
        script_safe(x) == x,
    decreases x.len(),
{
    if x.len() > 0 {
        let d = x.drop_first();
        assert forall|i: int| 0 <= i < d.len() implies #[trigger] d[i] != '<' && d[i] != '\u{2028}'
            && d[i] != '\u{2029}' by {
            assert(d[i] == x[i + 1]);
        }
        lemma_script_safe_plain(d);
        assert(seq![x[0]] + d =~= x);
    }
}

proof fn lemma_hex_round_trip(d: int)
    requires
        0 <= d < 16,
    ensures
        hex_value(hex_digit(d)) == Some(d),
{
}

/// Reading one written character back: the script-safe form of what serde
/// writes for `c`, followed by `y`, reads as `c` followed by what `y` reads as.
proof fn lemma_unescape_char(c: char, y: Seq<char>)
    requires
        c != '<',
    ensures
        json_unescape(script_safe(json_char(c)) + y) == match json_unescape(y) {
            Some(r) => Some(seq![c] + r),
            None => None,
        },
{
    reveal_strlit("\\u2028");
    reveal_strlit("\\u2029");
    let p = json_char(c);
    if c == '\u{2028}' || c == '\u{2029}' {
        assert(p == seq![c]);
        assert(script_safe(p.drop_first()) == Seq::<char>::empty());
        let q = script_safe(p);
        let x = q + y;
        assert(q.len() == 6);
        assert(x[0] == '\\' && x[1] == 'u');
        assert(x[2] == '2' && x[3] == '0' && x[4] == '2');
        assert(x[5] == q[5]);
        assert(x.skip(6) =~= y);
        assert(short_escape(x[1]) is None);
        if c == '\u{2028}' {
            assert(x[5] == '8');
            assert(unicode_escape(x) == Some(c));
        } else {
            assert(x[5] == '9');
            assert(unicode_escape(x) == Some(c));
        }
    } else {
        assert forall|i: int| 0 <= i < p.len() implies #[trigger] p[i] != '<' && p[i] != '\u{2028}'
            && p[i] != '\u{2029}' by {
            if (c as int) < 0x20 && c != '\u{08}' && c != '\t' && c != '\n' && c != '\u{0C}' && c != '\r' {
                if i >= 4 {
                    lemma_hex_round_trip((c as int) / 16);
                    lemma_hex_round_trip((c as int) % 16);
                }
            }
        }
        lemma_script_safe_plain(p);
        let x = p + y;
        if c == '"' || c == '\\' || c == '\u{08}' || c == '\t' || c == '\n' || c == '\u{0C}' || c == '\r' {
            assert(x[0] == '\\');
            assert(x[1] == p[1]);
            assert(x.skip(2) =~= y);
        } else if (c as int) < 0x20 {
            let hi = (c as int) / 16;
            let lo = (c as int) % 16;
            lemma_hex_round_trip(hi);
            lemma_hex_round_trip(lo);
            assert(x[0] == '\\' && x[1] == 'u' && x[2] == '0' && x[3] == '0');
            assert(x[4] == hex_digit(hi) && x[5] == hex_digit(lo));
            assert(short_escape(x[1]) is None);
            assert(16 * hi + lo == c as int);
            assert(unicode_escape(x) == Some(c));
            assert(x.skip(6) =~= y);
        } else {
            assert(p == seq![c]);
            assert(x[0] == c);
            assert(x.drop_first() =~= y);
        }
    }
}

/// The first character that serde writes for a non-empty text.
proof fn lemma_body_first(s: Seq<char>)
    requires
        s.len() > 0,
    ensures
        json_body(s) == json_char(s[0]) + json_body(s.drop_first()),
        json_body(s).len() > 0,
        json_body(s)[0] == '/' <==> s[0] == '/',
{
    let p = json_char(s[0]);
    assert(p.len() > 0);
    assert(json_body(s)[0] == p[0]);
}

/// Reading back where the text starts with `</`.
proof fn lemma_body_end_tag(s: Seq<char>)
    requires
        s.len() >= 2,
        s[0] == '<',
        s[1] == '/',
        json_unescape(script_safe(json_body(s.skip(2)))) == Some(s.skip(2)),
    ensures
        json_unescape(script_safe(json_body(s))) == Some(s),
{
    reveal_strlit("<\\/");
    let rest = s.skip(2);
    let b = json_body(rest);
    lemma_body_first(s);
    lemma_body_first(s.drop_first());
    assert(s.drop_first().drop_first() =~= rest);
    assert(json_char('/') == seq!['/']);
    assert(json_char('<') == seq!['<']);
    let x = seq!['<'] + (seq!['/'] + b);
    assert(json_body(s) =~= x);
    assert(x[0] == '<' && x[1] == '/');
    assert(x.skip(2) =~= b);
    let y = script_safe(b);
    let z = "<\\/"@ + y;
    assert(script_safe(x) == z);
    assert(z[0] == '<');
    let w = seq!['\\', '/'] + y;
    assert(z.drop_first() =~= w);
    assert(w[0] == '\\' && w[1] == '/');
    assert(w.skip(2) =~= y);
    assert(json_unescape(w) == Some(seq!['/'] + rest));
    assert(seq!['<'] + (seq!['/'] + rest) =~= s);
}

/// Reading back one character, where the text does not start with `</`.
proof fn lemma_body_step(s: Seq<char>)
    requires
        s.len() > 0,
        !(s.len() >= 2 && s[0] == '<' && s[1] == '/'),
        json_unescape(script_safe(json_body(s.drop_first()))) == Some(s.drop_first()),
    ensures
        json_unescape(script_safe(json_body(s))) == Some(s),
{
    let c = s[0];
    let rest = s.drop_first();
    let p = json_char(c);
    let b = json_body(rest);
    lemma_body_first(s);
    if rest.len() > 0 {
        lemma_body_first(rest);
        assert(rest[0] == s[1]);
    }
    assert(p.len() > 0);
    assert(p.last() == '<' ==> c == '<');
    lemma_script_safe_append(p, b);
    if c == '<' {
        assert(p == seq!['<']);
        assert(script_safe(p) == seq!['<']) by {
            assert(script_safe(p.drop_first()) == Seq::<char>::empty());
        }
        let x = seq!['<'] + script_safe(b);
        assert(x[0] == '<');
        assert(x.drop_first() =~= script_safe(b));
    } else {
        lemma_unescape_char(c, script_safe(b));
    }
    assert(seq![c] + rest =~= s);
}

/// What serde writes for `s`, made script-safe, reads back as `s`.
proof fn lemma_unescape_body(s: Seq<char>)
    ensures
        json_unescape(script_safe(json_body(s))) == Some(s),
    decreases s.len(),
{
    if s.len() == 0 {
        assert(script_safe(json_body(s)) == Seq::<char>::empty());
    } else if s.len() >= 2 && s[0] == '<' && s[1] == '/' {
        lemma_unescape_body(s.skip(2));
        lemma_body_end_tag(s);
    } else {
        lemma_unescape_body(s.drop_first());
        lemma_body_step(s);
    }
}

/// A JSON literal made safe for a script element still denotes the string it
/// was written for: reading `json_for_script`'s literal gives its input back.
pub proof fn lemma_json_for_script_reads_back(s: Seq<char>)
    ensures
        json_string_value(script_safe(json_string_literal(s))) == Some(s),
{
    let q = seq!['"'];
    let b = json_body(s);
    assert(json_string_literal(s) =~= q + (b + q));
    lemma_script_safe_append(q, b + q);
    if b.len() > 0 {
        assert((b + q).last() == '"');
    }
    lemma_script_safe_append(b, q);
    assert(script_safe(q) == q) by {
        assert(script_safe(q.drop_first()) == Seq::<char>::empty());
    }
    let lit = q + (script_safe(b) + q);
    assert(script_safe(json_string_literal(s)) == lit);
    assert(lit.subrange(1, lit.len() - 1) =~= script_safe(b));
    lemma_unescape_body(s);
}

} // verus!
