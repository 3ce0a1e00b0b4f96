//! Minimal HTTP/1.1: reading a request line by line, and the text of a
//! response.
//!
//! A request arrives as lines. [`RequestHead::start`] takes the first,
//! [`RequestHead::header`] each one after it until it says that the head has
//! ended; the caller then reads `content_length` bytes of body and hands them to
//! [`RequestHead::finish`].

use vstd::prelude::*;
use vstd::string::*;

use crate::text;

verus! {

/// A parsed HTTP request (only the parts that are needed).
pub struct HttpRequest {
    pub method: String,
    pub path: String,
    pub body: String,
}

/// The head of a request as far as it has been read.
pub struct RequestHead {
    pub method: String,
    pub path: String,
    /// The number of bytes of body that the head announces.
    pub content_length: usize,
}

/// The request line does not hold a method and a path.
#[derive(Debug, Clone, Copy, PartialEq, Eq, Structural)]
pub struct MalformedRequestLine;

/// What the head of a request says.
pub struct HeadModel {
    pub method: Seq<char>,
    pub path: Seq<char>,
    pub content_length: usize,
}

impl View for RequestHead {
    type V = HeadModel;

    open spec fn view(&self) -> HeadModel {
        HeadModel {
            method: self.method@,
            path: self.path@,
            content_length: self.content_length,
        }
    }
}

/// Whether a header line is named `Content-Length`, in any case.
pub open spec fn names_length(line: Seq<char>) -> bool {
    text::starts_with(text::lowercase(text::trim(line)), "content-length:"@)
}

/// Whether a line ends the head: it is blank, or it is the empty one that stands
/// for the end of the input.
pub open spec fn ends_head(line: Seq<char>) -> bool {
    text::trim(line).len() == 0
}

/// The length that the value of a header announces: zero where it is not a
/// number.
pub open spec fn length_of(value: Seq<char>) -> usize {
    match text::numeral(text::trim(value), usize::MAX as nat) {
        Some(n) => n as usize,
        None => 0,
    }
}

impl HeadModel {
    /// The head that a request line starts: its first two words are the method
    /// and the path.
    pub open spec fn start(line: Seq<char>) -> Option<HeadModel> {
        let words = text::words(line);
        if words.len() >= 2 {
            Some(HeadModel { method: words[0], path: words[1], content_length: 0 })
        } else {
            None
        }
    }

    /// The head after one line more.
    pub open spec fn header(self, line: Seq<char>) -> HeadModel {
        if names_length(line) {
            let header = text::lowercase(text::trim(line));
            HeadModel {
                content_length: length_of(header.skip("content-length:"@.len() as int)),
                ..self
            }
        } else {
            self
        }
    }

    /// The head after the header lines, up to the one that ends it.
    pub open spec fn headers(self, lines: Seq<Seq<char>>) -> HeadModel
        decreases lines.len(),
    {
        if lines.len() == 0 {
            self
        } else if ends_head(lines[0]) {
            self.header(lines[0])
        } else {
            self.header(lines[0]).headers(lines.skip(1))
        }
    }

    /// The head that a request line and the lines behind it make.
    pub open spec fn read(line: Seq<char>, lines: Seq<Seq<char>>) -> Option<HeadModel> {
        match HeadModel::start(line) {
            Some(head) => Some(head.headers(lines)),
            None => None,
        }
    }
}

impl RequestHead {
    /// Reads the request line, `METHOD /path HTTP/1.1`: the first two words are
    /// the method and the path.
    pub fn start(line: &str) -> (result: Result<RequestHead, MalformedRequestLine>)
        ensures
            match result {
                Ok(head) => HeadModel::start(line@) == Some(head@),
                Err(_) => HeadModel::start(line@) is None,
            },
    {
        let chars = text::chars_of(line);
        let (method_start, method_end) = text::next_word(&chars, 0);
        assert(chars@.skip(0) =~= line@);
        if method_start == method_end {
            return Err(MalformedRequestLine);
        }
        let (path_start, path_end) = text::next_word(&chars, method_end);
        if path_start == path_end {
            return Err(MalformedRequestLine);
        }
        Ok(
            RequestHead {
                method: line.substring_char(method_start, method_end).to_owned(),
                path: line.substring_char(path_start, path_end).to_owned(),
                content_length: 0,
            },
        )
    }

    /// Reads one line after the request line. Returns whether more header lines
    /// follow: a blank line ends the head, and so does the empty line that
    /// stands for the end of the input.
    pub fn header(&mut self, line: &str) -> (more: bool)
        ensures
            more == !ends_head(line@),
            final(self)@ == old(self)@.header(line@),
    {
        let chars = text::chars_of(line);
        let header = text::trimmed(&chars);
        let lower = text::lowercased(&header);
        if text::has_prefix(&lower, "content-length:") {
            proof {
                reveal_strlit("content-length:");
            }
            let value = text::copy_range(&lower, 15, lower.len());
            assert(value@ =~= lower@.skip(15));
            let value = text::trimmed(&value);
            self.content_length = match text::parse_numeral(&value, usize::MAX as u64) {
                Some(n) => n as usize,
                None => 0,
            };
        }
        header.len() > 0
    }

    /// The request with its body.
    pub fn finish(self, body: String) -> (request: HttpRequest)
        ensures
            request == (HttpRequest { method: self.method, path: self.path, body }),
    {
        HttpRequest { method: self.method, path: self.path, body }
    }
}

/// The reason phrase of a status code.
pub open spec fn reason(status: u16) -> Seq<char> {
    if status == 400 {
        "Bad Request"@
    } else if status == 404 {
        "Not Found"@
    } else if status == 405 {
        "Method Not Allowed"@
    } else if status == 500 {
        "Internal Server Error"@
    } else {
        "OK"@
    }
}

/// What goes over the wire: status line, headers, a blank line, the body. The
/// announced length is the body's in bytes.
pub open spec fn response(status: u16, body: &str) -> Seq<char> {
    "HTTP/1.1 "@ + text::decimal(status as nat) + " "@ + reason(status)
        + "\r\nContent-Type: application/json\r\nContent-Length: "@ + text::decimal(
        body.len() as nat,
    ) + "\r\nConnection: close\r\n\r\n"@ + body@
}

/// The text of a response with a JSON body.
pub fn format_response(status: u16, body: &str) -> (text: String)
    ensures
        text@ == response(status, body),
{
    let phrase: &str = match status {
        200 => "OK",
        400 => "Bad Request",
        404 => "Not Found",
        405 => "Method Not Allowed",
        500 => "Internal Server Error",
        _ => "OK",
    };
    let mut text = "HTTP/1.1 ".to_owned();
    text::append_decimal(&mut text, status as u64);
    text.append(" ");
    text.append(phrase);
    text.append("\r\nContent-Type: application/json\r\nContent-Length: ");
    text::append_decimal(&mut text, body.len() as u64);
    text.append("\r\nConnection: close\r\n\r\n");
    text.append(body);
    text
}

/// A request line is read back: what stands between single spaces is the method
/// and the path.
pub proof fn lemma_request_line(method: Seq<char>, path: Seq<char>, rest: Seq<char>)
    requires
        text::is_word(method),
        text::is_word(path),
    ensures
        HeadModel::start(method + " "@ + path + " "@ + rest) == Some(
            HeadModel { method, path, content_length: 0 },
        ),
{
    reveal_strlit(" ");
    let line = method + " "@ + path + " "@ + rest;
    let second = " "@ + path + " "@ + rest;
    let third = " "@ + rest;
    text::lemma_first_word(method, second);
    text::lemma_first_word(path, third);
    assert(line =~= method + second);
    assert(second.skip(1) =~= path + third);
    assert(text::words(second) == text::words(second.skip(1)));
}

/// A header named `Content-Length`, in any case, announces the length that its
/// value stands for, whatever was announced before. It does not end the head.
pub proof fn lemma_content_length(head: HeadModel, name: Seq<char>, value: Seq<char>)
    requires
        text::lowercase(name) == "content-length"@,
    ensures
        names_length(name + ":"@ + value),
        !ends_head(name + ":"@ + value),
        head.header(name + ":"@ + value) == (HeadModel {
            content_length: length_of(value),
            ..head
        }),
{
    reveal_strlit("content-length");
    reveal_strlit("content-length:");
    reveal_strlit(":");
    let start = name + ":"@;
    let line = start + value;
    assert(text::lowercase(name).len() == name.len());
    assert(text::lowercase(name)[0] == text::lower(name[0]));
    assert(text::trim_start(line) == line);
    text::lemma_trim_end_join(start, value);
    let kept = text::trim_end(value);
    let header = text::lowercase(start + kept);
    assert(header.take(15) =~= "content-length:"@) by {
        assert forall|i: int| 0 <= i < 15 implies header.take(15)[i] == "content-length:"@[i] by {
            if i < 14 {
                assert(text::lowercase(name)[i] == "content-length"@[i]);
            }
        }
    }
    assert(header.skip(15) =~= text::lowercase(kept));
    text::lemma_trim_lowercase(kept);
    text::lemma_trim_ends(value);
    text::lemma_numeral_lowercase(text::trim(value), usize::MAX as nat);
}

/// A length written as a numeral between a space and a line end is read back.
pub proof fn lemma_written_length(n: usize)
    ensures
        length_of(" "@ + text::decimal(n as nat) + "\r\n"@) == n,
{
    reveal_strlit(" ");
    reveal_strlit("\r\n");
    let numeral = text::decimal(n as nat);
    let value = " "@ + numeral + "\r\n"@;
    text::lemma_decimal(n as nat);
    text::lemma_numeral_of_decimal(n as nat, usize::MAX as nat);
    assert(text::is_digit(numeral[0]));
    assert(text::is_digit(numeral[numeral.len() - 1]));
    let rest = numeral + "\r\n"@;
    assert(value.skip(1) =~= rest);
    assert(text::trim_start(value) == text::trim_start(rest));
    assert(text::trim_start(rest) == rest);
    text::lemma_trim_end_join(numeral, "\r\n"@);
    assert("\r\n"@.drop_last().drop_last() =~= Seq::empty());
    assert(text::trim_end("\r\n"@) == text::trim_end("\r\n"@.drop_last()));
    assert(text::trim_end("\r\n"@.drop_last()) == text::trim_end(Seq::<char>::empty()));
    assert(numeral + Seq::<char>::empty() =~= numeral);
}

/// Header lines are read one after the other, as long as none ends the head.
proof fn lemma_headers_join(head: HeadModel, a: Seq<Seq<char>>, b: Seq<Seq<char>>)
    requires
        forall|i: int| 0 <= i < a.len() ==> !ends_head(#[trigger] a[i]),
    ensures
        head.headers(a + b) == head.headers(a).headers(b),
    decreases a.len(),
{
    if a.len() == 0 {
        assert(a + b =~= b);
    } else {
        assert(!ends_head(a[0]));
        assert((a + b).skip(1) =~= a.skip(1) + b);
        assert forall|i: int| 0 <= i < a.skip(1).len() implies !ends_head(
            #[trigger] a.skip(1)[i],
        ) by {
            assert(!ends_head(a[i + 1]));
        }
        lemma_headers_join(head.header(a[0]), a.skip(1), b);
    }
}

/// Header lines of other names leave a head as it is.
proof fn lemma_other_headers(head: HeadModel, lines: Seq<Seq<char>>)
    requires
        forall|i: int| 0 <= i < lines.len() ==> !names_length(#[trigger] lines[i]),
    ensures
        head.headers(lines) == head,
    decreases lines.len(),
{
    if lines.len() > 0 {
        assert(!names_length(lines[0]));
        assert forall|i: int| 0 <= i < lines.skip(1).len() implies !names_length(
            #[trigger] lines.skip(1)[i],
        ) by {
            assert(!names_length(lines[i + 1]));
        }
        lemma_other_headers(head.header(lines[0]), lines.skip(1));
    }
}

/// Reading stops at the line that ends the head; it changes nothing, and what
/// stands behind it is not looked at.
proof fn lemma_head_ends(head: HeadModel, blank: Seq<char>, body: Seq<Seq<char>>)
    requires
        ends_head(blank),
    ensures
        head.headers(seq![blank] + body) == head,
{
    reveal_strlit("content-length:");
    assert((seq![blank] + body)[0] == blank);
}

/// A whole head is read back: a request line, header lines of which the last
/// one named `Content-Length`, in any case, has the value given, and a blank
/// line leave that method, that path and the length that the value stands for.
/// What follows the blank line does not matter.
pub proof fn lemma_head(
    method: Seq<char>,
    path: Seq<char>,
    version: Seq<char>,
    before: Seq<Seq<char>>,
    name: Seq<char>,
    value: Seq<char>,
    after: Seq<Seq<char>>,
    blank: Seq<char>,
    body: Seq<Seq<char>>,
)
    requires
        text::is_word(method),
        text::is_word(path),
        forall|i: int| 0 <= i < before.len() ==> !ends_head(#[trigger] before[i]),
        text::lowercase(name) == "content-length"@,
        forall|i: int|
            0 <= i < after.len() ==> !ends_head(#[trigger] after[i]) && !names_length(after[i]),
        ends_head(blank),
    ensures
        HeadModel::read(
            method + " "@ + path + " "@ + version,
            before + (seq![name + ":"@ + value] + (after + (seq![blank] + body))),
        ) == Some(HeadModel { method, path, content_length: length_of(value) }),
{
    let start = HeadModel { method, path, content_length: 0 };
    let length = seq![name + ":"@ + value];
    let last = seq![blank] + body;
    lemma_request_line(method, path, version);
    lemma_headers_join(start, before, length + (after + last));
    let first = start.headers(before);
    lemma_headers_keep(start, before);
    lemma_content_length(first, name, value);
    lemma_headers_join(first, length, after + last);
    reveal_with_fuel(HeadModel::headers, 2);
    let second = first.headers(length);
    assert(second == first.header(length[0]));
    lemma_headers_join(second, after, last);
    lemma_other_headers(second, after);
    lemma_head_ends(second, blank, body);
}

/// A whole head without a header named `Content-Length` announces no body.
pub proof fn lemma_head_without_length(
    method: Seq<char>,
    path: Seq<char>,
    version: Seq<char>,
    headers: Seq<Seq<char>>,
    blank: Seq<char>,
    body: Seq<Seq<char>>,
)
    requires
        text::is_word(method),
        text::is_word(path),
        forall|i: int|
            0 <= i < headers.len() ==> !ends_head(#[trigger] headers[i]) && !names_length(
                headers[i],
            ),
        ends_head(blank),
    ensures
        HeadModel::read(
            method + " "@ + path + " "@ + version,
            headers + (seq![blank] + body),
        ) == Some(HeadModel { method, path, content_length: 0 }),
{
    let start = HeadModel { method, path, content_length: 0 };
    lemma_request_line(method, path, version);
    lemma_headers_join(start, headers, seq![blank] + body);
    lemma_other_headers(start, headers);
    lemma_head_ends(start, blank, body);
}

/// Header lines change neither the method nor the path.
pub proof fn lemma_headers_keep(head: HeadModel, lines: Seq<Seq<char>>)
    ensures
        head.headers(lines).method == head.method,
        head.headers(lines).path == head.path,
    decreases lines.len(),
{
    if lines.len() > 0 && !ends_head(lines[0]) {
        lemma_headers_keep(head.header(lines[0]), lines.skip(1));
    }
}

/// A line ends the head exactly if it holds white space alone.
pub proof fn lemma_blank(line: Seq<char>)
    ensures
        ends_head(line) <==> forall|i: int|
            0 <= i < line.len() ==> text::white(#[trigger] line[i]),
{
    if forall|i: int| 0 <= i < line.len() ==> text::white(#[trigger] line[i]) {
        text::lemma_trim_white(line);
    } else {
        let i = choose|i: int| 0 <= i < line.len() && !text::white(#[trigger] line[i]);
        lemma_not_blank(line, i);
    }
}

proof fn lemma_not_blank(line: Seq<char>, i: int)
    requires
        0 <= i < line.len(),
        !text::white(line[i]),
    ensures
        text::trim(line).len() > 0,
    decreases line.len(),
{
    if text::white(line[0]) {
        assert(line.skip(1)[i - 1] == line[i]);
        lemma_not_blank(line.skip(1), i - 1);
    } else {
        let first = line.take(1);
        let rest = line.skip(1);
        assert(line =~= first + rest);
        text::lemma_trim_end_join(first, rest);
    }
}

/// White space before a header does not matter.
pub proof fn lemma_indented_header(head: HeadModel, lead: Seq<char>, line: Seq<char>)
    requires
        forall|i: int| 0 <= i < lead.len() ==> text::white(#[trigger] lead[i]),
    ensures
        head.header(lead + line) == head.header(line),
        ends_head(lead + line) == ends_head(line),
{
    text::lemma_trim_start_join(lead, line);
}

/// A header of any other name changes nothing.
pub proof fn lemma_other_header(head: HeadModel, name: Seq<char>, value: Seq<char>)
    requires
        name.len() > 0,
        !text::white(name[0]),
        forall|i: int| 0 <= i < name.len() ==> #[trigger] name[i] != ':',
        text::lowercase(name) != "content-length"@,
    ensures
        !names_length(name + ":"@ + value),
        !ends_head(name + ":"@ + value),
        head.header(name + ":"@ + value) == head,
{
    reveal_strlit("content-length");
    reveal_strlit("content-length:");
    reveal_strlit(":");
    let start = name + ":"@;
    let line = start + value;
    assert(text::trim_start(line) == line);
    text::lemma_trim_end_join(start, value);
    let header = text::lowercase(start + text::trim_end(value));
    assert(text::lowercase(text::trim(line)) == header);
    if text::starts_with(header, "content-length:"@) {
        assert(header.take(15) == "content-length:"@);
        assert forall|i: int| 0 <= i < 15 implies header[i] == "content-length:"@[i] by {
            assert(header.take(15)[i] == header[i]);
        }
        assert(header[name.len() as int] == ':');
        assert forall|i: int| 0 <= i < name.len() implies header[i] == text::lowercase(name)[i]
            && header[i] != ':' by {
            assert(name[i] != ':');
        }
        assert("content-length:"@[14] == ':');
        assert(header[14] == ':');
        assert(name.len() == 14) by {
            if name.len() < 14 {
                assert("content-length:"@[name.len() as int] != ':');
            }
        }
        assert("content-length:"@ =~= "content-length"@ + ":"@);
        assert forall|i: int| 0 <= i < 14 implies #[trigger] text::lowercase(name)[i]
            == "content-length"@[i] by {
            assert(header[i] == "content-length:"@[i]);
        }
        assert(text::lowercase(name) =~= "content-length"@);
    }
}

/// What a length header announces: its value as a number, or zero.
pub proof fn lemma_length(value: Seq<char>, n: usize)
    ensures
        text::numeral(text::trim(value), usize::MAX as nat) == Some(n as nat) ==> length_of(value)
            == n,
        text::numeral(text::trim(value), usize::MAX as nat) is None ==> length_of(value) == 0,
{
}

/// A request line with fewer than two words starts no head; one with more starts
/// that of its first two.
pub proof fn lemma_start(line: Seq<char>)
    ensures
        text::words(line).len() < 2 ==> HeadModel::start(line) is None,
        text::words(line).len() >= 2 ==> HeadModel::start(line) == Some(
            HeadModel {
                method: text::words(line)[0],
                path: text::words(line)[1],
                content_length: 0,
            },
        ),
{
}

/// The status codes that have a reason of their own, and that of all others.
pub proof fn lemma_reason(status: u16)
    ensures
        status == 400 ==> reason(status) == "Bad Request"@,
        status == 404 ==> reason(status) == "Not Found"@,
        status == 405 ==> reason(status) == "Method Not Allowed"@,
        status == 500 ==> reason(status) == "Internal Server Error"@,
        status != 400 && status != 404 && status != 405 && status != 500 ==> reason(status)
            == "OK"@,
{
}

/// Whether the text is one line: it ends in its only line feed.
pub open spec fn is_line(s: Seq<char>) -> bool {
    s.len() > 0 && s.last() == '\n' && forall|i: int|
        0 <= i < s.len() - 1 ==> #[trigger] s[i] != '\n'
}

/// The text that lines make up.
pub open spec fn joined(lines: Seq<Seq<char>>) -> Seq<char>
    decreases lines.len(),
{
    if lines.len() == 0 {
        Seq::empty()
    } else {
        lines[0] + joined(lines.skip(1))
    }
}

/// Whether a client that reads a text line by line finds a status line, header
/// lines up to a blank one, and behind that the body.
pub open spec fn reads_as(
    text: Seq<char>,
    status_line: Seq<char>,
    lines: Seq<Seq<char>>,
    body: Seq<char>,
) -> bool {
    &&& text == status_line + joined(lines) + body
    &&& is_line(status_line)
    &&& lines.len() > 0
    &&& forall|i: int| 0 <= i < lines.len() ==> is_line(#[trigger] lines[i])
    &&& forall|i: int| 0 <= i < lines.len() - 1 ==> !ends_head(#[trigger] lines[i])
    &&& ends_head(lines.last())
}

/// Lines are joined one behind the other.
pub proof fn lemma_joined(line: Seq<char>, lines: Seq<Seq<char>>)
    ensures
        joined(Seq::empty()) == Seq::<char>::empty(),
        joined(seq![line] + lines) == line + joined(lines),
{
    assert((seq![line] + lines).skip(1) =~= lines);
}

/// The line that announces the length of a body.
spec fn length_line(n: usize) -> Seq<char> {
    "Content-Length"@ + ":"@ + (" "@ + text::decimal(n as nat) + "\r\n"@)
}

proof fn lemma_length_line(head: HeadModel, n: usize)
    ensures
        length_line(n) == "Content-Length: "@ + text::decimal(n as nat) + "\r\n"@,
        is_line(length_line(n)),
        !ends_head(length_line(n)),
        head.header(length_line(n)) == (HeadModel { content_length: n, ..head }),
{
    reveal_strlit("Content-Length");
    reveal_strlit("Content-Length: ");
    reveal_strlit("content-length");
    reveal_strlit(":");
    reveal_strlit(" ");
    reveal_strlit("\r\n");
    let numeral = text::decimal(n as nat);
    assert("Content-Length: "@ =~= "Content-Length"@ + ":"@ + " "@);
    assert(length_line(n) =~= "Content-Length"@ + ":"@ + " "@ + numeral + "\r\n"@);
    assert(text::lowercase("Content-Length"@) =~= "content-length"@);
    lemma_content_length(head, "Content-Length"@, " "@ + numeral + "\r\n"@);
    lemma_written_length(n);
    text::lemma_decimal(n as nat);
    let line = length_line(n);
    assert forall|i: int| 0 <= i < line.len() - 1 implies #[trigger] line[i] != '\n' by {
        if 16 <= i < 16 + numeral.len() {
            assert(line[i] == numeral[i - 16]);
            assert(text::is_digit(numeral[i - 16]));
        }
    }
}

proof fn lemma_type_line(head: HeadModel)
    ensures
        is_line("Content-Type: application/json\r\n"@),
        !ends_head("Content-Type: application/json\r\n"@),
        head.header("Content-Type: application/json\r\n"@) == head,
{
    reveal_strlit("Content-Type: application/json\r\n");
    reveal_strlit("Content-Type");
    reveal_strlit("content-length");
    reveal_strlit(":");
    reveal_strlit(" application/json\r\n");
    assert("Content-Type: application/json\r\n"@ =~= "Content-Type"@ + ":"@
        + " application/json\r\n"@);
    assert(text::lowercase("Content-Type"@).len() == 12);
    lemma_other_header(head, "Content-Type"@, " application/json\r\n"@);
}

proof fn lemma_connection_line(head: HeadModel)
    ensures
        is_line("Connection: close\r\n"@),
        !ends_head("Connection: close\r\n"@),
        head.header("Connection: close\r\n"@) == head,
{
    reveal_strlit("Connection: close\r\n");
    reveal_strlit("Connection");
    reveal_strlit("content-length");
    reveal_strlit(":");
    reveal_strlit(" close\r\n");
    assert("Connection: close\r\n"@ =~= "Connection"@ + ":"@ + " close\r\n"@);
    assert(text::lowercase("Connection"@).len() == 10);
    lemma_other_header(head, "Connection"@, " close\r\n"@);
}

proof fn lemma_status_line(status: u16)
    ensures
        ({
            let line = "HTTP/1.1 "@ + text::decimal(status as nat) + " "@ + reason(status)
                + "\r\n"@;
            &&& is_line(line)
            &&& text::words(line).len() >= 2
            &&& text::words(line)[0] == "HTTP/1.1"@
            &&& text::words(line)[1] == text::decimal(status as nat)
        }),
{
    reveal_strlit("HTTP/1.1 ");
    reveal_strlit("HTTP/1.1");
    reveal_strlit(" ");
    reveal_strlit("\r\n");
    reveal_strlit("Bad Request");
    reveal_strlit("Not Found");
    reveal_strlit("Method Not Allowed");
    reveal_strlit("Internal Server Error");
    reveal_strlit("OK");
    let numeral = text::decimal(status as nat);
    let line = "HTTP/1.1 "@ + numeral + " "@ + reason(status) + "\r\n"@;
    text::lemma_decimal(status as nat);
    assert forall|i: int| 0 <= i < numeral.len() implies !text::white(#[trigger] numeral[i])
        && numeral[i] != '\n' by {
        assert(text::is_digit(numeral[i]));
    }
    assert forall|i: int| 0 <= i < reason(status).len() implies #[trigger] reason(status)[i]
        != '\n' by {}
    assert forall|i: int| 0 <= i < line.len() - 1 implies #[trigger] line[i] != '\n' by {
        let n = numeral.len() as int;
        if i < 9 {
            assert(line[i] == "HTTP/1.1 "@[i]);
        } else if i < 9 + n {
            assert(line[i] == numeral[i - 9]);
        } else if i == 9 + n {
            assert(line[i] == ' ');
        } else if i < 10 + n + reason(status).len() {
            assert(line[i] == reason(status)[i - 10 - n]);
        }
    }
    assert("HTTP/1.1 "@ =~= "HTTP/1.1"@ + " "@);
    lemma_request_line("HTTP/1.1"@, numeral, reason(status) + "\r\n"@);
    assert(line =~= "HTTP/1.1"@ + " "@ + numeral + " "@ + (reason(status) + "\r\n"@));
}

/// A response is read back: a client that reads it line by line finds the
/// protocol and the status as the first two words and the reason behind them, in
/// the header lines the type of the body, the number of its bytes and that the
/// connection closes, and behind the blank line the whole body.
pub proof fn lemma_response_is_read_back(status: u16, body: &str)
    requires
        body.spec_bytes().len() <= usize::MAX,
    ensures
        exists|status_line: Seq<char>, lines: Seq<Seq<char>>|
            {
                &&& #[trigger] reads_as(response(status, body), status_line, lines, body@)
                &&& text::words(status_line).len() >= 2
                &&& text::words(status_line)[0] == "HTTP/1.1"@
                &&& text::numeral(text::words(status_line)[1], u16::MAX as nat) == Some(
                    status as nat,
                )
                &&& status_line == "HTTP/1.1 "@ + text::words(status_line)[1] + " "@ + reason(
                    status,
                ) + "\r\n"@
                &&& lines.contains("Content-Type: application/json\r\n"@)
                &&& lines.contains("Connection: close\r\n"@)
                &&& lines.len() == 4
                &&& forall|head: HeadModel|
                    (#[trigger] head.headers(lines)).content_length == body.spec_bytes().len()
            },
{
    let n = body.spec_bytes().len() as usize;
    let first = "HTTP/1.1 "@ + text::decimal(status as nat) + " "@ + reason(status) + "\r\n"@;
    let kind = "Content-Type: application/json\r\n"@;
    let length = length_line(n);
    let connection = "Connection: close\r\n"@;
    let blank = "\r\n"@;
    let none = Seq::<Seq<char>>::empty();
    let after = seq![connection] + (seq![blank] + none);
    let lines = seq![kind] + (seq![length] + after);
    let any = HeadModel { method: Seq::empty(), path: Seq::empty(), content_length: 0 };
    lemma_status_line(status);
    text::lemma_numeral_of_decimal(status as nat, u16::MAX as nat);
    lemma_type_line(any);
    lemma_length_line(any, n);
    lemma_connection_line(any);
    reveal_strlit("\r\n");
    lemma_blank(blank);
    assert(lines.len() == 4);
    assert(lines[0] == kind && lines[1] == length && lines[2] == connection && lines[3] == blank);
    // the text falls into these lines and the body
    lemma_joined(kind, seq![length] + after);
    lemma_joined(length, after);
    lemma_joined(connection, seq![blank] + none);
    lemma_joined(blank, none);
    assert(joined(none) =~= Seq::empty());
    let d = text::decimal(n as nat);
    reveal_strlit("\r\nContent-Type: application/json\r\nContent-Length: ");
    reveal_strlit("Content-Type: application/json\r\n");
    reveal_strlit("Content-Length: ");
    reveal_strlit("\r\nConnection: close\r\n\r\n");
    reveal_strlit("Connection: close\r\n");
    assert("\r\nContent-Type: application/json\r\nContent-Length: "@ =~= blank + kind
        + "Content-Length: "@);
    assert("\r\nConnection: close\r\n\r\n"@ =~= blank + connection + blank);
    lemma_response_text(
        "HTTP/1.1 "@ + text::decimal(status as nat) + " "@ + reason(status),
        blank,
        kind,
        "Content-Length: "@,
        d,
        connection,
        body@,
    );
    assert(response(status, body) == first + joined(lines) + body@);
    assert(reads_as(response(status, body), first, lines, body@));
    assert(lines.contains(lines[0]) && lines.contains(lines[2]));
    assert forall|head: HeadModel| (#[trigger] head.headers(lines)).content_length
        == body.spec_bytes().len() by {
        lemma_type_line(head);
        lemma_length_line(head, n);
        let announced = HeadModel { content_length: n, ..head };
        lemma_connection_line(announced);
        lemma_head_ends(announced, blank, none);
        assert(lines.skip(1) =~= seq![length] + after);
        assert((seq![length] + after).skip(1) =~= after);
        assert(after.skip(1) =~= seq![blank] + none);
        assert(head.headers(lines) == head.headers(seq![length] + after));
        assert((seq![length] + after)[0] == length);
        assert(head.headers(seq![length] + after) == announced.headers(after));
        assert(after[0] == connection);
        assert(announced.headers(after) == announced.headers(seq![blank] + none));
    }
}

/// Regroups the parts of a response.
proof fn lemma_response_text(
    start: Seq<char>,
    end: Seq<char>,
    kind: Seq<char>,
    name: Seq<char>,
    numeral: Seq<char>,
    connection: Seq<char>,
    body: Seq<char>,
)
    ensures
        start + (end + kind + name) + numeral + (end + connection + end) + body == (start + end) + (
        kind + ((name + numeral + end) + (connection + (end + Seq::<char>::empty())))) + body,
{
    assert(start + (end + kind + name) + numeral + (end + connection + end) + body =~= (start + end)
        + (kind + ((name + numeral + end) + (connection + (end + Seq::<char>::empty())))) + body);
}

/// A line without a colon is no header, and changes nothing.
pub proof fn lemma_line_without_colon(head: HeadModel, line: Seq<char>)
    requires
        forall|i: int| 0 <= i < line.len() ==> #[trigger] line[i] != ':',
    ensures
        !names_length(line),
        head.header(line) == head,
{
    reveal_strlit("content-length:");
    let header = text::lowercase(text::trim(line));
    if text::starts_with(header, "content-length:"@) {
        assert(header.take(15)[14] == "content-length:"@[14]);
        lemma_trim_keeps_out(line, ':');
        assert(text::trim(line)[14] != ':');
    }
}

proof fn lemma_trim_end_keeps_out(s: Seq<char>, c: char)
    requires
        forall|i: int| 0 <= i < s.len() ==> #[trigger] s[i] != c,
    ensures
        forall|i: int| 0 <= i < text::trim_end(s).len() ==> #[trigger] text::trim_end(s)[i] != c,
    decreases s.len(),
{
    if s.len() > 0 && text::white(s.last()) {
        assert forall|i: int| 0 <= i < s.drop_last().len() implies #[trigger] s.drop_last()[i]
            != c by {
            assert(s[i] != c);
        }
        lemma_trim_end_keeps_out(s.drop_last(), c);
        assert(text::trim_end(s) == text::trim_end(s.drop_last()));
    } else {
        assert(text::trim_end(s) == s);
    }
}

proof fn lemma_trim_keeps_out(s: Seq<char>, c: char)
    requires
        forall|i: int| 0 <= i < s.len() ==> #[trigger] s[i] != c,
    ensures
        forall|i: int| 0 <= i < text::trim(s).len() ==> #[trigger] text::trim(s)[i] != c,
    decreases s.len(),
{
    if s.len() > 0 && text::white(s[0]) {
        assert forall|i: int| 0 <= i < s.skip(1).len() implies #[trigger] s.skip(1)[i] != c by {
            assert(s[i + 1] != c);
        }
        lemma_trim_keeps_out(s.skip(1), c);
        assert(text::trim(s) == text::trim(s.skip(1)));
    } else {
        lemma_trim_end_keeps_out(s, c);
        assert(text::trim(s) == text::trim_end(s));
    }
}

/// Header lines are read in order up to the one that ends the head.
pub proof fn lemma_header_lines(head: HeadModel, line: Seq<char>, lines: Seq<Seq<char>>)
    ensures
        head.headers(Seq::empty()) == head,
        ends_head(line) ==> head.headers(seq![line] + lines) == head,
        !ends_head(line) ==> head.headers(seq![line] + lines) == head.header(line).headers(lines),
{
    assert((seq![line] + lines).skip(1) =~= lines);
    if ends_head(line) {
        lemma_head_ends(head, line, lines);
    }
}

/// What it takes for a text to be read as a status line, header lines and a
/// body: they make it up, each line ends in its only line feed, and the last of
/// the header lines, and no other, ends the head.
pub proof fn lemma_reads_as(
    text: Seq<char>,
    status_line: Seq<char>,
    lines: Seq<Seq<char>>,
    body: Seq<char>,
)
    requires
        reads_as(text, status_line, lines, body),
    ensures
        text == status_line + joined(lines) + body,
        status_line.len() > 0 && status_line.last() == '\n',
        forall|i: int| 0 <= i < status_line.len() - 1 ==> #[trigger] status_line[i] != '\n',
        lines.len() > 0,
        forall|k: int|
            0 <= k < lines.len() ==> (#[trigger] lines[k]).len() > 0 && lines[k].last() == '\n',
        forall|k: int, i: int|
            0 <= k < lines.len() && 0 <= i < lines[k].len() - 1 ==> #[trigger] lines[k][i] != '\n',
        forall|k: int| 0 <= k < lines.len() ==> (ends_head(#[trigger] lines[k]) <==> k
            == lines.len() - 1),
{
    assert forall|k: int, i: int| 0 <= k < lines.len() && 0 <= i < lines[k].len()
        - 1 implies #[trigger] lines[k][i] != '\n' by {
        assert(is_line(lines[k]));
    }
}

} // verus!
