//! Escaping of report data for inclusion in an HTML `script` element.
use vstd::prelude::*;

use vstd::string::StringExecFns;

verus! {

/// What one character becomes inside the report's data script: the
/// characters that could end the element or start markup, and the two line
/// separators JavaScript treats as line ends, as JSON escapes; any other
/// character unchanged.
pub open spec fn escape_char(c: char) -> Seq<char> {
    if c == '<' {
        "\\u003c"@
    } else if c == '>' {
        "\\u003e"@
    } else if c == '&' {
        "\\u0026"@
    } else if c == '\u{2028}' {
        "\\u2028"@
    } else if c == '\u{2029}' {
        "\\u2029"@
    } else {
        seq![c]
    }
}

/// Every character of `s` escaped, in order.
pub open spec fn escaped_json(s: Seq<char>) -> Seq<char>
    decreases s.len(),
{
    if s.len() == 0 {
        Seq::empty()
    } else {
        escaped_json(s.drop_last()) + escape_char(s.last())
    }
}

/// One of the characters the report data escapes.
pub open spec fn is_script_special(c: char) -> bool {
    c == '<' || c == '>' || c == '&' || c == '\u{2028}' || c == '\u{2029}'
}

/// The value of a hexadecimal digit, lower case.
pub open spec fn hex_value(d: char) -> int {
    if '0' <= d <= '9' {
        d as int - '0' as int
    } else if 'a' <= d <= 'f' {
        d as int - 'a' as int + 10
    } else {
        -1
    }
}

/// Text without the escaped characters passes through unchanged.
pub proof fn lemma_escape_keeps_plain_text(s: Seq<char>)
    requires
        forall|i: int| 0 <= i < s.len() ==> !is_script_special(#[trigger] s[i]),
    ensures
        escaped_json(s) == s,
    decreases s.len(),
{
    if s.len() > 0 {
        assert(!is_script_special(s[s.len() - 1]));
        lemma_escape_keeps_plain_text(s.drop_last());
        assert(s.drop_last().push(s.last()) =~= s);
    }
}

/// Each escaped character becomes the JSON escape `\uXXXX` whose four
/// hexadecimal digits spell its code point, so a JSON reader decodes it
/// back to the character; every other character is kept as it is.
pub proof fn lemma_escape_is_json_unicode_escape(c: char)
    ensures
        !is_script_special(c) ==> escape_char(c) == seq![c],
        is_script_special(c) ==> {
            let e = escape_char(c);
            &&& e.len() == 6
            &&& e[0] == '\\'
            &&& e[1] == 'u'
            &&& 4096 * hex_value(e[2]) + 256 * hex_value(e[3]) + 16 * hex_value(e[4]) + hex_value(e[5]) == c as int
            &&& forall|i: int| 2 <= i < 6 ==> 0 <= #[trigger] hex_value(e[i]) < 16
        },
{
    reveal_strlit("\\u003c");
    reveal_strlit("\\u003e");
    reveal_strlit("\\u0026");
    reveal_strlit("\\u2028");
    reveal_strlit("\\u2029");
}

/// Append `c` to `s` (`String::push`).
#[verifier::external_body]
fn push_char(s: &mut String, c: char)
    ensures
        final(s)@ == old(s)@.push(c),
{
    s.push(c);
}

/// Escape serialized report data for safe inclusion in a `script` element.
pub fn escape_json_for_script(json: &str) -> (r: String)
    ensures
        r@ == escaped_json(json@),
{
    broadcast use vstd::string::axiom_spec_iter;

    let mut escaped = String::new();
    for character in it: json.chars()
        invariant
            it.seq() == json@,
            escaped@ == escaped_json(it.seq().take(it.index())),
    {
        proof {
            assert(it.seq().take(it.index() + 1).drop_last() =~= it.seq().take(it.index()));
        }
        if character == '<' {
            escaped.append("\\u003c");
        } else if character == '>' {
            escaped.append("\\u003e");
        } else if character == '&' {
            escaped.append("\\u0026");
        } else if character == '\u{2028}' {
            escaped.append("\\u2028");
        } else if character == '\u{2029}' {
            escaped.append("\\u2029");
        } else {
            push_char(&mut escaped, character);
        }
    }
    assert(json@.take(json@.len() as int) =~= json@);
    escaped
}

/// Escaped report data never contains a character that could end the data
/// script or start markup, nor a JavaScript line separator.
pub proof fn lemma_escaped_has_no_markup(s: Seq<char>)
    ensures
        !escaped_json(s).contains('<'),
        !escaped_json(s).contains('>'),
        !escaped_json(s).contains('&'),
        !escaped_json(s).contains('\u{2028}'),
        !escaped_json(s).contains('\u{2029}'),
    decreases s.len(),
{
    reveal_strlit("\\u003c");
    reveal_strlit("\\u003e");
    reveal_strlit("\\u0026");
    reveal_strlit("\\u2028");
    reveal_strlit("\\u2029");
    if s.len() > 0 {
        lemma_escaped_has_no_markup(s.drop_last());
        let prefix = escaped_json(s.drop_last());
        let tail = escape_char(s.last());
        assert(escaped_json(s) == prefix + tail);
        assert forall|c: char| (c == '<' || c == '>' || c == '&' || c == '\u{2028}' || c == '\u{2029}')
            implies !(prefix + tail).contains(c) by {
            if (prefix + tail).contains(c) {
                let i = choose|i: int| 0 <= i < (prefix + tail).len() && (prefix + tail)[i] == c;
                if i < prefix.len() {
                    assert(prefix[i] == c);
                } else {
                    assert(tail[i - prefix.len()] == c);
                }
            }
        }
    }
}

} // verus!
