//! The little of an HTTP/1.x request that fingerprinting needs.

use vstd::prelude::*;
use vstd::utf8::{decode_utf8, valid_utf8};

use crate::f0p::format::{parse_u8, read_u8};
use crate::text;
use crate::text::{after_prefix, before_last, begins, cut, lower, split, texts, trim};
use crate::text::decimal;

verus! {

/// `std::str::from_utf8`: the text that `bytes` encode, where they are valid
/// UTF-8, and nothing where they are not.
#[verifier::external_body]
fn utf8_text(bytes: &[u8]) -> (r: Option<&str>)
    ensures
        match r {
            Some(s) => valid_utf8(bytes@) && s@ == decode_utf8(bytes@),
            None => !valid_utf8(bytes@),
        },
{
    std::str::from_utf8(bytes).ok()
}

// ---------------------------------------------------------------------------
// Lines

/// A line without the carriage return at its end, where it has one.
pub open spec fn without_return(line: Seq<char>) -> Seq<char> {
    match before_last(line, '\r') {
        Some(rest) => rest,
        None => line,
    }
}

/// The lines of a text. A line ends at a line feed, or at a carriage return and
/// a line feed; what follows the last of them is a line too.
pub open spec fn text_lines(s: Seq<char>) -> Seq<Seq<char>> {
    let pieces = split(s, '\n');
    Seq::new(
        pieces.len(),
        |i: int|
            if i + 1 < pieces.len() {
                without_return(pieces[i])
            } else {
                pieces[i]
            },
    )
}

fn lines_of<'a>(s: &'a [char]) -> (r: Vec<&'a [char]>)
    ensures
        texts(r@) == text_lines(s@),
        r@.len() >= 1,
{
    let pieces = text::split_on(s, '\n');
    let ghost all = texts(pieces@);
    assert(all.len() >= 1);
    let mut out: Vec<&'a [char]> = Vec::new();
    let mut i: usize = 0;
    while i < pieces.len()
        invariant
            i <= pieces@.len(),
            all == texts(pieces@),
            all == split(s@, '\n'),
            texts(out@) == text_lines(s@).take(i as int),
        decreases pieces@.len() - i,
    {
        let ghost before = texts(out@);
        let piece: &'a [char] = pieces[i];
        assert(all[i as int] == piece@);
        let line: &'a [char] = if i + 1 < pieces.len() {
            match text::strip_last(piece, '\r') {
                Some(rest) => rest,
                None => piece,
            }
        } else {
            piece
        };
        out.push(line);
        assert(texts(out@) =~= before.push(line@));
        assert(texts(out@) =~= text_lines(s@).take(i + 1));
        i = i + 1;
    }
    assert(text_lines(s@).take(i as int) =~= text_lines(s@));
    assert(texts(out@).len() == out@.len());
    out
}

// ---------------------------------------------------------------------------
// Requests

/// The methods that a request line may begin with.
pub open spec fn http_method(word: Seq<char>) -> bool {
    ||| word == "GET"@
    ||| word == "POST"@
    ||| word == "HEAD"@
    ||| word == "PUT"@
    ||| word == "DELETE"@
    ||| word == "OPTIONS"@
    ||| word == "CONNECT"@
    ||| word == "PATCH"@
}

fn is_http_method(word: &[char]) -> (r: bool)
    ensures
        r == http_method(word@),
{
    text::is_text(word, "GET") || text::is_text(word, "POST") || text::is_text(word, "HEAD")
        || text::is_text(word, "PUT") || text::is_text(word, "DELETE") || text::is_text(
        word,
        "OPTIONS",
    ) || text::is_text(word, "CONNECT") || text::is_text(word, "PATCH")
}

/// A header: its name in lower case, and its value.
pub type HeaderText = (Seq<char>, Seq<char>);

/// The headers of a list of lines: up to the first empty line, those lines that
/// have a colon.
pub open spec fn read_headers(lines: Seq<Seq<char>>) -> Seq<HeaderText>
    decreases lines.len(),
{
    if lines.len() == 0 || lines[0].len() == 0 {
        Seq::empty()
    } else {
        match cut(lines[0], ':') {
            Some((name, value)) => seq![(lower(trim(name)), trim(value))] + read_headers(
                lines.skip(1),
            ),
            None => read_headers(lines.skip(1)),
        }
    }
}

/// The `x` of the `HTTP/1.x` that is the third word of a request line.
pub open spec fn read_minor_version(words: Seq<Seq<char>>) -> Option<u8> {
    if words.len() < 3 {
        None
    } else {
        match after_prefix(words[2], "HTTP/1."@) {
            Some(minor) => read_u8(trim(minor)),
            None => None,
        }
    }
}

/// What an [`ObservedHttpRequest`] holds.
pub ghost struct RequestView {
    pub minor_version: Option<u8>,
    pub headers: Seq<HeaderText>,
}

/// Whether a word gives a version of HTTP/1.
pub open spec fn names_http1(word: Seq<char>) -> bool {
    begins(word, "HTTP/1."@)
}

/// Whether a request line gives a version of HTTP/1. The version follows the method and
/// the target, which may hold spaces itself.
pub open spec fn speaks_http1(words: Seq<Seq<char>>) -> bool {
    exists|i: int| 2 <= i < words.len() && #[trigger] names_http1(words[i])
}

/// The request that a text is: its first line begins with a method.
pub open spec fn request_in(s: Seq<char>) -> Option<RequestView> {
    let lines = text_lines(s);
    let words = split(lines[0], ' ');
    if http_method(words[0]) {
        Some(
            RequestView {
                minor_version: read_minor_version(words),
                headers: read_headers(lines.skip(1)),
            },
        )
    } else {
        None
    }
}

/// The request that a payload is, where it is one: UTF-8 text that begins with a
/// request line.
pub open spec fn read_request(payload: Seq<u8>) -> Option<RequestView> {
    if valid_utf8(payload) {
        request_in(decode_utf8(payload))
    } else {
        None
    }
}

/// Whether the first line of a text gives a version of HTTP/1.
pub open spec fn is_http1(payload: Seq<u8>) -> bool {
    speaks_http1(split(text_lines(decode_utf8(payload))[0], ' '))
}

/// An HTTP request, as far as signatures look at it.
#[derive(Debug)]
pub struct ObservedHttpRequest {
    pub minor_version: Option<u8>,
    /// Names in lower case and values, in wire order.
    pub headers: Vec<(String, String)>,
}

/// What a list of headers holds.
pub open spec fn header_texts(list: Seq<(String, String)>) -> Seq<HeaderText> {
    Seq::new(list.len(), |i: int| (list[i].0@, list[i].1@))
}

impl View for ObservedHttpRequest {
    type V = RequestView;

    open spec fn view(&self) -> RequestView {
        RequestView { minor_version: self.minor_version, headers: header_texts(self.headers@) }
    }
}

/// The place of the first header of that name from `from` on.
pub open spec fn next_named(headers: Seq<HeaderText>, from: int, name: Seq<char>) -> Option<int>
    decreases headers.len() - from,
{
    if from >= headers.len() {
        None
    } else if headers[from].0 == name {
        Some(from)
    } else {
        next_named(headers, from + 1, name)
    }
}

/// The value of the first header of that name.
pub open spec fn value_of(headers: Seq<HeaderText>, name: Seq<char>) -> Option<Seq<char>> {
    match next_named(headers, 0, name) {
        Some(i) => Some(headers[i].1),
        None => None,
    }
}

pub proof fn lemma_next_named(headers: Seq<HeaderText>, from: int, name: Seq<char>)
    requires
        0 <= from <= headers.len(),
    ensures
        match next_named(headers, from, name) {
            Some(i) => {
                &&& from <= i < headers.len()
                &&& headers[i].0 == name
                &&& forall|j: int| from <= j < i ==> (#[trigger] headers[j]).0 != name
            },
            None => forall|j: int| from <= j < headers.len() ==> (#[trigger] headers[j]).0 != name,
        },
    decreases headers.len() - from,
{
    if from < headers.len() && headers[from].0 != name {
        lemma_next_named(headers, from + 1, name);
    }
}

/// Finds the first header of a name from `from` on.
pub fn find_header(headers: &Vec<(String, String)>, from: usize, name: &str) -> (r: Option<usize>)
    requires
        from <= headers@.len(),
    ensures
        match r {
            Some(i) => next_named(header_texts(headers@), from as int, name@) == Some(i as int)
                && from <= i < headers@.len(),
            None => next_named(header_texts(headers@), from as int, name@) is None,
        },
{
    let mut i: usize = from;
    while i < headers.len()
        invariant
            from <= i <= headers@.len(),
            next_named(header_texts(headers@), from as int, name@) == next_named(
                header_texts(headers@),
                i as int,
                name@,
            ),
        decreases headers@.len() - i,
    {
        if text::same_str(headers[i].0.as_str(), name) {
            return Some(i);
        }
        i = i + 1;
    }
    None
}

fn parse_headers(lines: &Vec<&[char]>) -> (r: Vec<(String, String)>)
    requires
        lines@.len() >= 1,
    ensures
        header_texts(r@) == read_headers(texts(lines@).skip(1)),
{
    let mut out: Vec<(String, String)> = Vec::new();
    let ghost all = texts(lines@);
    let mut i: usize = 1;
    assert(header_texts(out@) =~= Seq::empty());
    assert(read_headers(all.skip(1)) =~= header_texts(out@) + read_headers(all.skip(1)));
    while i < lines.len()
        invariant
            1 <= i <= lines@.len(),
            all == texts(lines@),
            read_headers(all.skip(1)) == header_texts(out@) + read_headers(all.skip(i as int)),
        decreases lines@.len() - i,
    {
        let ghost rest = all.skip(i as int);
        assert(rest[0] == lines@[i as int]@);
        assert(rest.skip(1) =~= all.skip(i + 1));
        let line = lines[i];
        if line.len() == 0 {
            assert(header_texts(out@) + read_headers(rest) =~= header_texts(out@));
            return out;
        }
        let ghost before = header_texts(out@);
        if let Some((name, value)) = text::split_once(line, ':') {
            let name = text::to_lower(text::trimmed(name));
            let value = text::trimmed(value);
            let header = (text::string_of(name.as_slice()), text::string_of(value));
            out.push(header);
            assert(header_texts(out@) =~= before.push((header.0@, header.1@)));
            assert(before + read_headers(rest) =~= header_texts(out@) + read_headers(
                all.skip(i + 1),
            ));
        }
        i = i + 1;
    }
    assert(header_texts(out@) + read_headers(all.skip(i as int)) =~= header_texts(out@));
    out
}

/// Looks for a version of HTTP/1 in a request line.
fn find_http1(words: &Vec<&[char]>) -> (r: bool)
    ensures
        r == speaks_http1(texts(words@)),
{
    let ghost all = texts(words@);
    let mut i: usize = 2;
    while i < words.len()
        invariant
            2 <= i,
            all == texts(words@),
            forall|j: int| 2 <= j < i && j < all.len() ==> !#[trigger] names_http1(all[j]),
        decreases words@.len() - i,
    {
        assert(all[i as int] == words@[i as int]@);
        if text::strip_prefix(words[i], "HTTP/1.").is_some() {
            assert(names_http1(all[i as int]));
            return true;
        }
        i = i + 1;
    }
    false
}

/// Reads a payload as a request, and tells whether its first line gives a version of
/// HTTP/1.
fn read_text(payload: &[u8]) -> (r: Option<(ObservedHttpRequest, bool)>)
    ensures
        match r {
            Some((request, http1)) => read_request(payload@) == Some(request@) && http1
                == is_http1(payload@),
            None => read_request(payload@) is None,
        },
{
    let chars = match utf8_text(payload) {
        Some(s) => text::chars_of(s),
        None => {
            return None;
        },
    };
    let lines = lines_of(chars.as_slice());
    assert(texts(lines@)[0] == lines@[0]@);
    let words = text::split_on(lines[0], ' ');
    let ghost all = texts(words@);
    assert(all.len() >= 1 && all[0] == words@[0]@);
    if !is_http_method(words[0]) {
        return None;
    }
    let version = if words.len() < 3 {
        None
    } else {
        assert(all[2] == words@[2]@);
        text::strip_prefix(words[2], "HTTP/1.")
    };
    let minor_version: Option<u8> = match version {
        Some(minor) => parse_u8(text::trimmed(minor)),
        None => None,
    };
    let request = ObservedHttpRequest { minor_version, headers: parse_headers(&lines) };
    Some((request, find_http1(&words)))
}

impl ObservedHttpRequest {
    /// Reads a payload as a request. `None` for anything that is not text that begins
    /// with a request line.
    pub fn parse(payload: &[u8]) -> (r: Option<Self>)
        ensures
            match r {
                Some(request) => read_request(payload@) == Some(request@),
                None => read_request(payload@) is None,
            },
    {
        match read_text(payload) {
            Some((request, _)) => Some(request),
            None => None,
        }
    }

    /// The value of the first header of that name, which is given in lower case.
    pub fn header_value(&self, name: &str) -> (r: Option<&str>)
        ensures
            match r {
                Some(value) => value_of(self@.headers, name@) == Some(value@),
                None => value_of(self@.headers, name@) is None,
            },
    {
        match find_header(&self.headers, 0, name) {
            Some(i) => Some(self.headers[i].1.as_str()),
            None => None,
        }
    }
}

/// The User-Agent of a payload: `None` where it is no HTTP/1.x request, and the empty
/// text where it is one without that header.
pub open spec fn user_agent_in(payload: Seq<u8>) -> Option<Seq<char>> {
    match read_request(payload) {
        Some(request) => if is_http1(payload) {
            Some(
                match value_of(request.headers, "user-agent"@) {
                    Some(value) => value,
                    None => Seq::empty(),
                },
            )
        } else {
            None
        },
        None => None,
    }
}

/// Reads the User-Agent out of a payload.
pub fn http_user_agent(payload: &[u8]) -> (r: Option<String>)
    ensures
        match r {
            Some(agent) => user_agent_in(payload@) == Some(agent@),
            None => user_agent_in(payload@) is None,
        },
{
    let request = match read_text(payload) {
        Some((request, true)) => request,
        _ => {
            return None;
        },
    };
    match request.header_value("user-agent") {
        Some(value) => Some(text::copy_of(value)),
        None => {
            let none = String::new();
            assert(none@ =~= Seq::empty());
            Some(none)
        },
    }
}

// ---------------------------------------------------------------------------
// Laws

/// A line ends at a line feed, and a carriage return before that is no part of it; what
/// follows the last line feed is a line too.
pub proof fn lines_end_at_line_feeds(line: Seq<char>, rest: Seq<char>)
    requires
        !line.contains('\n'),
    ensures
        text_lines(line) == seq![line],
        text_lines(line + seq!['\r', '\n'] + rest) == seq![line] + text_lines(rest),
        line.len() == 0 || line.last() != '\r' ==> text_lines(line + seq!['\n'] + rest) == seq![
            line,
        ] + text_lines(rest),
{
    let returned = line + seq!['\r'];
    lemma_one_piece(line);
    assert forall|i: int| 0 <= i < returned.len() implies returned[i] != '\n' by {
        if i < line.len() {
            assert(returned[i] == line[i]);
        }
    }
    lemma_one_piece(returned);
    assert(line + seq!['\r', '\n'] + rest =~= returned + seq!['\n'] + rest);
    text::split_at_separator(returned, rest, '\n');
    text::split_at_separator(line, rest, '\n');
    text::joining_undoes_splitting(rest, '\n');
    assert(returned.drop_last() =~= line);
    assert(text_lines(line) =~= seq![line]);
    lemma_front_line(returned, rest, line);
    if line.len() == 0 || line.last() != '\r' {
        lemma_front_line(line, rest, line);
    }
}

proof fn lemma_one_piece(s: Seq<char>)
    requires
        !s.contains('\n'),
    ensures
        split(s, '\n') == seq![s],
{
    text::lemma_position(s, '\n');
    assert(split(s, '\n') =~= seq![s]);
}

proof fn lemma_front_line(piece: Seq<char>, rest: Seq<char>, line: Seq<char>)
    requires
        split(piece + seq!['\n'] + rest, '\n') == seq![piece] + split(rest, '\n'),
        split(rest, '\n').len() > 0,
        without_return(piece) == line,
    ensures
        text_lines(piece + seq!['\n'] + rest) == seq![line] + text_lines(rest),
{
    let pieces = split(piece + seq!['\n'] + rest, '\n');
    let later = split(rest, '\n');
    assert forall|i: int| 0 <= i < pieces.len() implies text_lines(
        piece + seq!['\n'] + rest,
    )[i] == (seq![line] + text_lines(rest))[i] by {
        if i > 0 {
            assert(pieces[i] == later[i - 1]);
        }
    }
    assert(text_lines(piece + seq!['\n'] + rest) =~= seq![line] + text_lines(rest));
}

/// These words are methods, and no others.
pub proof fn methods_are_these_words(word: Seq<char>)
    ensures
        http_method(word) <==> {
            ||| word == seq!['G', 'E', 'T']
            ||| word == seq!['P', 'U', 'T']
            ||| word == seq!['P', 'O', 'S', 'T']
            ||| word == seq!['H', 'E', 'A', 'D']
            ||| word == seq!['P', 'A', 'T', 'C', 'H']
            ||| word == seq!['D', 'E', 'L', 'E', 'T', 'E']
            ||| word == seq!['O', 'P', 'T', 'I', 'O', 'N', 'S']
            ||| word == seq!['C', 'O', 'N', 'N', 'E', 'C', 'T']
        },
{
    reveal_strlit("GET");
    reveal_strlit("PUT");
    reveal_strlit("POST");
    reveal_strlit("HEAD");
    reveal_strlit("PATCH");
    reveal_strlit("DELETE");
    reveal_strlit("OPTIONS");
    reveal_strlit("CONNECT");
    assert("GET"@ =~= seq!['G', 'E', 'T']);
    assert("PUT"@ =~= seq!['P', 'U', 'T']);
    assert("POST"@ =~= seq!['P', 'O', 'S', 'T']);
    assert("HEAD"@ =~= seq!['H', 'E', 'A', 'D']);
    assert("PATCH"@ =~= seq!['P', 'A', 'T', 'C', 'H']);
    assert("DELETE"@ =~= seq!['D', 'E', 'L', 'E', 'T', 'E']);
    assert("OPTIONS"@ =~= seq!['O', 'P', 'T', 'I', 'O', 'N', 'S']);
    assert("CONNECT"@ =~= seq!['C', 'O', 'N', 'N', 'E', 'C', 'T']);
}

/// Headers are read line by line up to the first empty one: a name before the first
/// colon, in lower case, and a value behind it, both without white space round them. A
/// line without a colon is passed over.
pub proof fn headers_are_read_line_by_line(
    name: Seq<char>,
    value: Seq<char>,
    line: Seq<char>,
    rest: Seq<Seq<char>>,
)
    requires
        !name.contains(':'),
        !line.contains(':'),
        line.len() > 0,
    ensures
        read_headers(Seq::empty()).len() == 0,
        read_headers(seq![Seq::<char>::empty()] + rest).len() == 0,
        read_headers(seq![name + seq![':'] + value] + rest) == seq![
            (lower(trim(name)), trim(value)),
        ] + read_headers(rest),
        read_headers(seq![line] + rest) == read_headers(rest),
{
    let header = name + seq![':'] + value;
    text::cuts_are_at_the_first(header, ':', name, value);
    text::cuts_are_at_the_first(line, ':', name, value);
    assert((seq![header] + rest).skip(1) =~= rest);
    assert((seq![line] + rest).skip(1) =~= rest);
}

/// A text is a request exactly where the first word of its first line is a method. The
/// minor version is the number behind `HTTP/1.` in the third word, and the headers are in
/// the lines that follow.
pub proof fn requests_begin_with_a_method(
    s: Seq<char>,
    method: Seq<char>,
    target: Seq<char>,
    version: Seq<char>,
    minor: nat,
)
    requires
        !method.contains(' '),
        !target.contains(' '),
        !version.contains(' '),
        text_lines(s)[0] == method + seq![' '] + target + seq![' '] + version,
    ensures
        request_in(s) is Some <==> http_method(method),
        request_in(s) matches Some(request) ==> {
            &&& request.headers == read_headers(text_lines(s).skip(1))
            &&& version == "HTTP/1."@ + decimal(minor) && minor <= 255 ==> request.minor_version
                == Some(minor as u8)
            &&& !begins(version, "HTTP/1."@) ==> request.minor_version is None
        },
{
    let line = text_lines(s)[0];
    let rest = target + seq![' '] + version;
    assert(line =~= method + seq![' '] + rest);
    text::split_at_separator(method, rest, ' ');
    text::split_at_separator(target, version, ' ');
    text::lemma_position(method, ' ');
    text::lemma_position(target, ' ');
    text::lemma_position(version, ' ');
    assert(split(method, ' ') =~= seq![method]);
    assert(split(target, ' ') =~= seq![target]);
    assert(split(version, ' ') =~= seq![version]);
    let words = split(line, ' ');
    assert(words =~= seq![method, target, version]);
    text::beginnings_can_be_taken_off(version, "HTTP/1."@, decimal(minor));
    text::numbers_are_written_in_digits(minor);
    text::decimal_reads_back(minor);
    text::white_space_by_number(decimal(minor)[0]);
    text::white_space_by_number(decimal(minor).last());
    text::trimming_undoes_padding(Seq::empty(), decimal(minor), Seq::empty());
    if minor <= 255 {
        text::unsigned_reads_decimal(minor, 255);
    }
}

/// A payload has a User-Agent where it is a request whose first line has a word of
/// `HTTP/1.` behind the target: the value of the first header of that name, or the empty
/// text where it has none.
pub proof fn user_agents_are_of_http1_requests(payload: Seq<u8>)
    ensures
        user_agent_in(payload) is Some <==> {
            &&& read_request(payload) is Some
            &&& exists|i: int|
                2 <= i < split(text_lines(decode_utf8(payload))[0], ' ').len() && begins(
                    #[trigger] split(text_lines(decode_utf8(payload))[0], ' ')[i],
                    "HTTP/1."@,
                )
        },
        user_agent_in(payload) matches Some(agent) ==> {
            let headers = read_request(payload)->0.headers;
            ||| exists|i: int|
                0 <= i < headers.len() && (#[trigger] headers[i]).0 == "user-agent"@ && headers[i].1
                    == agent && forall|j: int|
                    0 <= j < i ==> (#[trigger] headers[j]).0 != "user-agent"@
            ||| agent.len() == 0 && forall|j: int|
                0 <= j < headers.len() ==> (#[trigger] headers[j]).0 != "user-agent"@
        },
        !valid_utf8(payload) ==> user_agent_in(payload) is None && read_request(payload) is None,
{
    let words = split(text_lines(decode_utf8(payload))[0], ' ');
    if speaks_http1(words) {
        let i = choose|i: int| 2 <= i < words.len() && #[trigger] names_http1(words[i]);
        assert(begins(words[i], "HTTP/1."@));
    }
    if exists|i: int| 2 <= i < words.len() && begins(#[trigger] words[i], "HTTP/1."@) {
        let i = choose|i: int| 2 <= i < words.len() && begins(#[trigger] words[i], "HTTP/1."@);
        assert(names_http1(words[i]));
    }
    if let Some(request) = read_request(payload) {
        lemma_next_named(request.headers, 0, "user-agent"@);
    }
}

} // verus!
