//! The JSON of the replies: objects with one member, and text inside strings.

use vstd::prelude::*;
use vstd::string::*;

use crate::text;

verus! {

/// A JSON object with one member.
pub open spec fn object(name: Seq<char>, value: Seq<char>) -> Seq<char> {
    "{\""@ + name + "\":"@ + value + "}"@
}

/// A JSON string.
pub open spec fn quoted(content: Seq<char>) -> Seq<char> {
    "\""@ + content + "\""@
}

/// Whether the text is a JSON string.
pub open spec fn is_string(s: Seq<char>) -> bool {
    exists|content: Seq<char>| s == #[trigger] quoted(content) && string_content(content)
}

/// Whether the text is a JSON number that counts something: a whole number, in
/// digits alone.
pub open spec fn is_count(s: Seq<char>) -> bool {
    s == text::decimal(text::digits_value(s))
}

/// Whether the text is a JSON object in the form of the replies: one member, a
/// string or a count, and no white space around its parts.
pub open spec fn is_reply(s: Seq<char>) -> bool {
    exists|name: Seq<char>, value: Seq<char>|
        s == #[trigger] object(name, value) && string_content(name) && (is_string(value)
            || is_count(value))
}

/// The hexadecimal digit that stands for `n`.
pub open spec fn hex_digit(n: nat) -> char {
    if n < 10 {
        (48 + n) as char
    } else {
        (87 + n) as char
    }
}

/// A character as it stands inside a JSON string.
pub open spec fn escaped(c: char) -> Seq<char> {
    if c == '"' || c == '\\' {
        seq!['\\', c]
    } else if c <= '\u{1F}' {
        seq!['\\', 'u', '0', '0', hex_digit(c as nat / 16), hex_digit(c as nat % 16)]
    } else {
        seq![c]
    }
}

/// A text as it stands inside a JSON string.
pub open spec fn escape(s: Seq<char>) -> Seq<char>
    decreases s.len(),
{
    if s.len() == 0 {
        Seq::empty()
    } else {
        escape(s.drop_last()) + escaped(s.last())
    }
}

/// Whether the character is a hexadecimal digit.
pub open spec fn is_hex_digit(c: char) -> bool {
    text::is_digit(c) || 'a' <= c <= 'f' || 'A' <= c <= 'F'
}

/// The characters that a backslash may stand before in a JSON string, apart from
/// the `u` of four hexadecimal digits.
pub open spec fn is_escape(c: char) -> bool {
    c == '"' || c == '\\' || c == '/' || c == 'b' || c == 'f' || c == 'n' || c == 'r' || c == 't'
}

/// Whether a text may stand between the quotes of a JSON string.
pub open spec fn string_content(s: Seq<char>) -> bool
    decreases s.len(),
{
    if s.len() == 0 {
        true
    } else if s[0] == '\\' {
        ||| s.len() >= 2 && is_escape(s[1]) && string_content(s.skip(2))
        ||| s.len() >= 6 && s[1] == 'u' && is_hex_digit(s[2]) && is_hex_digit(s[3])
            && is_hex_digit(s[4]) && is_hex_digit(s[5]) && string_content(s.skip(6))
    } else {
        s[0] != '"' && s[0] > '\u{1F}' && string_content(s.skip(1))
    }
}

/// Two texts that may stand in a JSON string may do so one after the other.
pub proof fn lemma_string_content_join(a: Seq<char>, b: Seq<char>)
    requires
        string_content(a),
        string_content(b),
    ensures
        string_content(a + b),
    decreases a.len(),
{
    let s = a + b;
    if a.len() == 0 {
        assert(s =~= b);
    } else if a[0] == '\\' {
        if a.len() >= 2 && is_escape(a[1]) && string_content(a.skip(2)) {
            lemma_string_content_join(a.skip(2), b);
            assert(s.skip(2) =~= a.skip(2) + b);
        } else {
            lemma_string_content_join(a.skip(6), b);
            assert(s.skip(6) =~= a.skip(6) + b);
        }
    } else {
        lemma_string_content_join(a.skip(1), b);
        assert(s.skip(1) =~= a.skip(1) + b);
    }
}

proof fn lemma_escaped_is_string_content(c: char)
    ensures
        string_content(escaped(c)),
{
    let s = escaped(c);
    if c == '"' || c == '\\' {
        assert(s.skip(2) =~= Seq::empty());
        assert(string_content(s.skip(2)));
    } else if c <= '\u{1F}' {
        assert(s.skip(6) =~= Seq::empty());
        assert(string_content(s.skip(6)));
    } else {
        assert(s.skip(1) =~= Seq::empty());
        assert(string_content(s.skip(1)));
    }
}

/// An escaped text may always stand between the quotes of a JSON string.
pub proof fn lemma_escape_is_string_content(s: Seq<char>)
    ensures
        string_content(escape(s)),
    decreases s.len(),
{
    if s.len() > 0 {
        lemma_escape_is_string_content(s.drop_last());
        lemma_escaped_is_string_content(s.last());
        lemma_string_content_join(escape(s.drop_last()), escaped(s.last()));
    }
}

fn append_hex_digit(text: &mut String, n: u8)
    requires
        n < 16,
    ensures
        final(text)@ == old(text)@.push(hex_digit(n as nat)),
{
    proof {
        reveal_strlit("a");
        reveal_strlit("b");
        reveal_strlit("c");
        reveal_strlit("d");
        reveal_strlit("e");
        reveal_strlit("f");
    }
    if n < 10 {
        text::append_digit(text, n as u64);
    } else {
        let piece: &str = if n == 10 {
            "a"
        } else if n == 11 {
            "b"
        } else if n == 12 {
            "c"
        } else if n == 13 {
            "d"
        } else if n == 14 {
            "e"
        } else {
            "f"
        };
        assert(piece@ == seq![hex_digit(n as nat)]);
        text.append(piece);
        assert(text@ == old(text)@.push(hex_digit(n as nat)));
    }
}

/// The code of a control character.
fn control_code(c: char) -> (code: u8)
    requires
        c <= '\u{1F}',
    ensures
        code as nat == c as nat,
{
    c as u8
}

/// Appends a text as it stands inside a JSON string.
pub fn append_escaped(text: &mut String, s: &str)
    ensures
        final(text)@ == old(text)@ + escape(s@),
{
    let ghost before = text@;
    let chars = text::chars_of(s);
    let mut i: usize = 0;
    proof {
        reveal_strlit("\\");
        reveal_strlit("u00");
        assert(s@.take(0) =~= Seq::empty());
        assert(before + escape(s@.take(0)) =~= before);
    }
    while i < chars.len()
        invariant
            i <= chars@.len(),
            chars@ == s@,
            text@ == before + escape(s@.take(i as int)),
            "\\"@ == seq!['\\'],
            "u00"@ == seq!['u', '0', '0'],
        decreases chars.len() - i,
    {
        let c = chars[i];
        let ghost so_far = text@;
        if c == '"' || c == '\\' {
            text.append("\\");
            text.append(s.substring_char(i, i + 1));
        } else if '\u{1F}' >= c {
            text.append("\\");
            text.append("u00");
            let code: u8 = control_code(c);
            append_hex_digit(text, code / 16);
            append_hex_digit(text, code % 16);
            assert(text@ =~= so_far + escaped(c));
        } else {
            text.append(s.substring_char(i, i + 1));
        }
        proof {
            assert(s@.subrange(i as int, i + 1) =~= seq![c]);
            assert(text@ =~= so_far + escaped(c));
            assert(s@.take(i + 1).drop_last() =~= s@.take(i as int));
            assert(before + escape(s@.take(i as int)) + escaped(c) =~= before + (escape(
                s@.take(i as int),
            ) + escaped(c)));
        }
        i = i + 1;
    }
    assert(s@.take(s@.len() as int) =~= s@);
}

/// A text without control characters, quotes and backslashes may stand in a
/// JSON string as it is.
pub proof fn lemma_plain(s: Seq<char>)
    requires
        forall|i: int|
            0 <= i < s.len() ==> #[trigger] s[i] > '\u{1F}' && s[i] != '"' && s[i] != '\\',
    ensures
        string_content(s),
    decreases s.len(),
{
    if s.len() > 0 {
        assert forall|i: int| 0 <= i < s.skip(1).len() implies #[trigger] s.skip(1)[i] > '\u{1F}'
            && s.skip(1)[i] != '"' && s.skip(1)[i] != '\\' by {
            assert(s.skip(1)[i] == s[i + 1]);
        }
        lemma_plain(s.skip(1));
    }
}

/// An object whose member is a string is a reply.
pub proof fn lemma_string_member(name: Seq<char>, content: Seq<char>)
    requires
        string_content(name),
        string_content(content),
    ensures
        is_reply(object(name, quoted(content))),
{
    assert(is_string(quoted(content)));
}

/// An object whose member is a count is a reply.
pub proof fn lemma_count_member(name: Seq<char>, n: nat)
    requires
        string_content(name),
    ensures
        is_reply(object(name, text::decimal(n))),
{
    text::lemma_decimal(n);
}

/// Escaping goes character by character.
pub proof fn lemma_escape_join(a: Seq<char>, b: Seq<char>)
    ensures
        escape(a + b) == escape(a) + escape(b),
    decreases b.len(),
{
    if b.len() == 0 {
        assert(a + b =~= a);
        assert(escape(a) + escape(b) =~= escape(a));
    } else {
        assert((a + b).drop_last() =~= a + b.drop_last());
        lemma_escape_join(a, b.drop_last());
        assert(escape(a) + escape(b) =~= (escape(a) + escape(b.drop_last())) + escaped(b.last()));
    }
}

/// A quote and a backslash get a backslash before them; a control character
/// becomes a backslash, a `u` and its code in four hexadecimal digits; every
/// other character stands for itself.
pub proof fn lemma_escape_character(c: char)
    ensures
        c == '"' || c == '\\' ==> escape(seq![c]) == seq!['\\', c],
        c != '"' && c != '\\' && c > '\u{1F}' ==> escape(seq![c]) == seq![c],
        c <= '\u{1F}' ==> {
            let e = escape(seq![c]);
            &&& e.len() == 6
            &&& e[0] == '\\' && e[1] == 'u' && e[2] == '0' && e[3] == '0'
            &&& e[4] as int - '0' as int == c as int / 16
            &&& c as int % 16 < 10 ==> e[5] as int - '0' as int == c as int % 16
            &&& c as int % 16 >= 10 ==> e[5] as int - 'a' as int + 10 == c as int % 16
        },
{
    assert(seq![c].drop_last() =~= Seq::empty());
    assert(escape(Seq::empty()) =~= Seq::empty());
    assert(escape(seq![c]) =~= escaped(c));
}

/// The text of an object with one member.
pub proof fn lemma_object(name: Seq<char>, value: Seq<char>)
    ensures
        object(name, value) == "{\""@ + name + "\":"@ + value + "}"@,
{
}

/// The text of an object whose one member is a string.
pub proof fn lemma_object_text(name: Seq<char>, content: Seq<char>)
    ensures
        object(name, quoted(content)) == "{\""@ + name + "\":\""@ + content + "\"}"@,
{
    reveal_strlit("\"");
    reveal_strlit("\":");
    reveal_strlit("}");
    reveal_strlit("\":\"");
    reveal_strlit("\"}");
    assert("\":\""@ =~= "\":"@ + "\""@);
    assert("\"}"@ =~= "\""@ + "}"@);
    assert(object(name, quoted(content)) =~= "{\""@ + name + ("\":"@ + "\""@) + content + ("\""@
        + "}"@));
}

} // verus!
