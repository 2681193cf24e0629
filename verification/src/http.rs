//! Parser for the one HTTP request that opens a connection.
//!
//! The request must arrive whole in the buffer handed to [`Request::parse`]:
//! a request line, header lines, and the blank line that ends them, with
//! CR LF between lines.

use vstd::prelude::*;
use vstd::slice::slice_subrange;
use vstd::slice::slice_to_vec;
use vstd::string::StringSliceAdditionalSpecFns;
use vstd::utf8::valid_utf8;

verus! {

pub const CR: u8 = 13;

pub const LF: u8 = 10;

pub const SPACE: u8 = 32;

pub const TAB: u8 = 9;

pub const COLON: u8 = 58;

/// Why a buffer is not an acceptable request.
#[derive(Clone, Copy, Debug, PartialEq, Eq, Structural)]
pub enum ParseError {
    /// The bytes are not UTF-8 text.
    NotText,
    /// The first line is not three non-empty words with one space between them.
    MalformedRequestLine,
    /// No blank line ends the headers within the buffer.
    MissingTerminator,
}

/// One header line: the name before the first colon, the value after it
/// without the blanks around it.
#[derive(Debug)]
pub struct Header {
    pub name: Vec<u8>,
    pub value: Vec<u8>,
}

/// A parsed request: the three words of the request line and the headers in
/// the order in which they arrived.
#[derive(Debug)]
pub struct Request {
    pub method: Vec<u8>,
    pub target: Vec<u8>,
    pub version: Vec<u8>,
    pub headers: Vec<Header>,
}

/// The mathematical content of a [`Request`].
pub struct RequestModel {
    pub method: Seq<u8>,
    pub target: Seq<u8>,
    pub version: Seq<u8>,
    pub headers: Seq<(Seq<u8>, Seq<u8>)>,
}

impl Header {
    pub open spec fn pair(self) -> (Seq<u8>, Seq<u8>) {
        (self.name@, self.value@)
    }
}

/// The name and value of each header, in order.
pub open spec fn header_pairs(headers: Seq<Header>) -> Seq<(Seq<u8>, Seq<u8>)> {
    headers.map_values(|h: Header| h.pair())
}

impl View for Request {
    type V = RequestModel;

    open spec fn view(&self) -> RequestModel {
        RequestModel {
            method: self.method@,
            target: self.target@,
            version: self.version@,
            headers: header_pairs(self.headers@),
        }
    }
}

/// Index of the first `byte` in `s` at or after `from`; `s.len()` if there is none.
pub open spec fn index_of(s: Seq<u8>, byte: u8, from: int) -> int
    decreases s.len() - from,
{
    if from < 0 || from >= s.len() {
        s.len() as int
    } else if s[from] == byte {
        from
    } else {
        index_of(s, byte, from + 1)
    }
}

/// Index of the first CR LF in `s` at or after `from`; `s.len()` if there is none.
pub open spec fn line_end(s: Seq<u8>, from: int) -> int
    decreases s.len() - from,
{
    if from < 0 || from + 2 > s.len() {
        s.len() as int
    } else if s[from] == CR && s[from + 1] == LF {
        from
    } else {
        line_end(s, from + 1)
    }
}

/// Index of the first CR LF CR LF in `s` at or after `from`; `s.len()` if there is none.
pub open spec fn block_end(s: Seq<u8>, from: int) -> int
    decreases s.len() - from,
{
    if from < 0 || from + 4 > s.len() {
        s.len() as int
    } else if s[from] == CR && s[from + 1] == LF && s[from + 2] == CR && s[from + 3] == LF {
        from
    } else {
        block_end(s, from + 1)
    }
}

pub open spec fn is_blank(b: u8) -> bool {
    b == SPACE || b == TAB
}

/// `s` without the blanks at its front.
pub open spec fn trim_start(s: Seq<u8>) -> Seq<u8>
    decreases s.len(),
{
    if s.len() > 0 && is_blank(s[0]) {
        trim_start(s.subrange(1, s.len() as int))
    } else {
        s
    }
}

/// `s` without the blanks at its end.
pub open spec fn trim_end(s: Seq<u8>) -> Seq<u8>
    decreases s.len(),
{
    if s.len() > 0 && is_blank(s[s.len() - 1]) {
        trim_end(s.subrange(0, s.len() - 1))
    } else {
        s
    }
}

/// `s` without the blanks around it.
pub open spec fn trim(s: Seq<u8>) -> Seq<u8> {
    trim_end(trim_start(s))
}

/// The three words of a request line, if it has exactly that shape.
pub open spec fn request_line(line: Seq<u8>) -> Option<(Seq<u8>, Seq<u8>, Seq<u8>)> {
    let n = line.len() as int;
    let first = index_of(line, SPACE, 0);
    let second = index_of(line, SPACE, first + 1);
    if 0 < first && first + 1 < second && second + 1 < n && index_of(line, SPACE, second + 1)
        == n {
        Some((line.subrange(0, first), line.subrange(first + 1, second), line.subrange(second + 1, n)))
    } else {
        None
    }
}

/// The header that a line holds: it needs a colon after a non-empty name.
pub open spec fn header_line(line: Seq<u8>) -> Option<(Seq<u8>, Seq<u8>)> {
    let colon = index_of(line, COLON, 0);
    if 0 < colon && colon < line.len() {
        Some((line.subrange(0, colon), trim(line.subrange(colon + 1, line.len() as int))))
    } else {
        None
    }
}

/// The headers held by the lines of `head` from position `pos` on.  Lines
/// that hold no header are passed over.
pub open spec fn headers_from(head: Seq<u8>, pos: int) -> Seq<(Seq<u8>, Seq<u8>)>
    decreases head.len() - pos,
{
    if pos < 0 || pos >= head.len() {
        Seq::empty()
    } else {
        let end = line_end(head, pos);
        let here = match header_line(head.subrange(pos, end)) {
            Some(h) => seq![h],
            None => Seq::empty(),
        };
        if pos <= end && end + 2 <= head.len() {
            here + headers_from(head, end + 2)
        } else {
            here
        }
    }
}

/// What a buffer parses to.  The request ends at the first blank line; what
/// follows it is not looked at, except that the whole buffer must be text.
pub open spec fn spec_parse(data: Seq<u8>) -> Result<RequestModel, ParseError> {
    if !valid_utf8(data) {
        Err(ParseError::NotText)
    } else {
        let stop = block_end(data, 0);
        if stop >= data.len() {
            Err(ParseError::MissingTerminator)
        } else {
            let head = data.subrange(0, stop);
            let first_end = line_end(head, 0);
            match request_line(head.subrange(0, first_end)) {
                None => Err(ParseError::MalformedRequestLine),
                Some((method, target, version)) => Ok(
                    RequestModel {
                        method,
                        target,
                        version,
                        headers: headers_from(head, first_end + 2),
                    },
                ),
            }
        }
    }
}

/// The lower-case form of an ASCII letter; any other byte unchanged.
pub open spec fn lower(b: u8) -> u8 {
    if 65 <= b <= 90 {
        (b + 32) as u8
    } else {
        b
    }
}

/// Equality of header names: ASCII letters match in either case.
pub open spec fn same_name(a: Seq<u8>, b: Seq<u8>) -> bool {
    a.len() == b.len() && forall|i: int| 0 <= i < a.len() ==> lower(a[i]) == lower(b[i])
}

/// The value of the first header called `name`.
pub open spec fn lookup(headers: Seq<(Seq<u8>, Seq<u8>)>, name: Seq<u8>) -> Option<Seq<u8>>
    decreases headers.len(),
{
    if headers.len() == 0 {
        None
    } else if same_name(headers[0].0, name) {
        Some(headers[0].1)
    } else {
        lookup(headers.subrange(1, headers.len() as int), name)
    }
}

/// `core::str::from_utf8`: the bytes as text, where they are UTF-8, and
/// nothing where they are not.  The text handed out is made of the very bytes
/// given.
#[verifier::external_body]
pub(crate) fn as_text(data: &[u8]) -> (r: Option<&str>)
    ensures
        r is Some <==> valid_utf8(data@),
        r is Some ==> r.unwrap().spec_bytes() == data@,
{
    match core::str::from_utf8(data) {
        Ok(text) => Some(text),
        Err(_) => None,
    }
}

fn find_byte(s: &[u8], byte: u8, from: usize) -> (at: usize)
    requires
        from <= s@.len(),
    ensures
        at == index_of(s@, byte, from as int),
        from <= at <= s@.len(),
{
    let mut i: usize = from;
    while i < s.len() && s[i] != byte
        invariant
            from <= i <= s@.len(),
            index_of(s@, byte, from as int) == index_of(s@, byte, i as int),
        decreases s@.len() - i,
    {
        i += 1;
    }
    i
}

fn find_line_end(s: &[u8], from: usize) -> (at: usize)
    requires
        from <= s@.len(),
    ensures
        at == line_end(s@, from as int),
        from <= at <= s@.len(),
        at < s@.len() ==> at + 2 <= s@.len(),
{
    let n: usize = s.len();
    let mut i: usize = from;
    while n - i >= 2 && !(s[i] == CR && s[i + 1] == LF)
        invariant
            n == s@.len(),
            from <= i <= n,
            line_end(s@, from as int) == line_end(s@, i as int),
        decreases n - i,
    {
        i += 1;
    }
    if n - i >= 2 {
        i
    } else {
        n
    }
}

fn find_block_end(s: &[u8], from: usize) -> (at: usize)
    requires
        from <= s@.len(),
    ensures
        at == block_end(s@, from as int),
        from <= at <= s@.len(),
{
    let n: usize = s.len();
    let mut i: usize = from;
    while n - i >= 4 && !(s[i] == CR && s[i + 1] == LF && s[i + 2] == CR && s[i + 3] == LF)
        invariant
            n == s@.len(),
            from <= i <= n,
            block_end(s@, from as int) == block_end(s@, i as int),
        decreases n - i,
    {
        i += 1;
    }
    if n - i >= 4 {
        i
    } else {
        n
    }
}

fn is_blank_byte(b: u8) -> (r: bool)
    ensures
        r == is_blank(b),
{
    b == SPACE || b == TAB
}

fn trimmed(s: &[u8]) -> (out: Vec<u8>)
    ensures
        out@ == trim(s@),
{
    let n: usize = s.len();
    let mut a: usize = 0;
    assert(s@.subrange(0, n as int) =~= s@);
    while a < n && is_blank_byte(s[a])
        invariant
            n == s@.len(),
            a <= n,
            trim_start(s@) == trim_start(s@.subrange(a as int, n as int)),
        decreases n - a,
    {
        proof {
            let cur = s@.subrange(a as int, n as int);
            assert(cur.subrange(1, cur.len() as int) =~= s@.subrange(a + 1, n as int));
        }
        a += 1;
    }
    let mut b: usize = n;
    while b > a && is_blank_byte(s[b - 1])
        invariant
            n == s@.len(),
            a <= b <= n,
            trim_end(s@.subrange(a as int, n as int)) == trim_end(s@.subrange(a as int, b as int)),
        decreases b - a,
    {
        proof {
            let cur = s@.subrange(a as int, b as int);
            assert(cur.subrange(0, cur.len() - 1) =~= s@.subrange(a as int, b - 1));
        }
        b -= 1;
    }
    slice_to_vec(slice_subrange(s, a, b))
}

fn parse_request_line(line: &[u8]) -> (r: Option<(Vec<u8>, Vec<u8>, Vec<u8>)>)
    ensures
        match request_line(line@) {
            Some((m, t, v)) => r is Some && r.unwrap().0@ == m && r.unwrap().1@ == t
                && r.unwrap().2@ == v,
            None => r is None,
        },
{
    let n: usize = line.len();
    let first: usize = find_byte(line, SPACE, 0);
    if first == 0 || first >= n {
        return None;
    }
    let second: usize = find_byte(line, SPACE, first + 1);
    if second <= first + 1 || second >= n {
        return None;
    }
    if second + 1 >= n {
        return None;
    }
    let third: usize = find_byte(line, SPACE, second + 1);
    if third != n {
        return None;
    }
    Some(
        (
            slice_to_vec(slice_subrange(line, 0, first)),
            slice_to_vec(slice_subrange(line, first + 1, second)),
            slice_to_vec(slice_subrange(line, second + 1, n)),
        ),
    )
}

fn parse_header_line(line: &[u8]) -> (r: Option<Header>)
    ensures
        match header_line(line@) {
            Some(h) => r is Some && r.unwrap().pair() == h,
            None => r is None,
        },
{
    let n: usize = line.len();
    let colon: usize = find_byte(line, COLON, 0);
    if colon == 0 || colon >= n {
        return None;
    }
    let name = slice_to_vec(slice_subrange(line, 0, colon));
    let value = trimmed(slice_subrange(line, colon + 1, n));
    Some(Header { name, value })
}

fn lower_byte(b: u8) -> (r: u8)
    ensures
        r == lower(b),
{
    if 65 <= b && b <= 90 {
        b + 32
    } else {
        b
    }
}

/// Compares two header names, letters matching in either case.
pub fn names_match(a: &[u8], b: &[u8]) -> (r: bool)
    ensures
        r == same_name(a@, b@),
{
    if a.len() != b.len() {
        return false;
    }
    let mut i: usize = 0;
    while i < a.len()
        invariant
            a@.len() == b@.len(),
            i <= a@.len(),
            forall|j: int| 0 <= j < i ==> lower(a@[j]) == lower(b@[j]),
        decreases a@.len() - i,
    {
        if lower_byte(a[i]) != lower_byte(b[i]) {
            return false;
        }
        i += 1;
    }
    true
}

/// Compares two byte strings.
pub fn bytes_equal(a: &[u8], b: &[u8]) -> (r: bool)
    ensures
        r == (a@ == b@),
{
    if a.len() != b.len() {
        return false;
    }
    let mut i: usize = 0;
    while i < a.len()
        invariant
            a@.len() == b@.len(),
            i <= a@.len(),
            forall|j: int| 0 <= j < i ==> a@[j] == b@[j],
        decreases a@.len() - i,
    {
        if a[i] != b[i] {
            return false;
        }
        i += 1;
    }
    assert(a@ =~= b@);
    true
}

impl Request {
    /// Parses the request at the front of `data`.
    ///
    /// Fails with `NotText` when the buffer is not UTF-8, else with
    /// `MissingTerminator` when no blank line ends the headers, else with
    /// `MalformedRequestLine` when the first line is not `method target version`.
    pub fn parse(data: &[u8]) -> (r: Result<Request, ParseError>)
        ensures
            match spec_parse(data@) {
                Ok(model) => r is Ok && r.unwrap()@ == model,
                Err(e) => r == Err::<Request, ParseError>(e),
            },
    {
        if as_text(data).is_none() {
            return Err(ParseError::NotText);
        }
        let stop: usize = find_block_end(data, 0);
        if stop >= data.len() {
            return Err(ParseError::MissingTerminator);
        }
        let head = slice_subrange(data, 0, stop);
        let n: usize = head.len();
        let first_end: usize = find_line_end(head, 0);
        let (method, target, version) = match parse_request_line(
            slice_subrange(head, 0, first_end),
        ) {
            None => {
                return Err(ParseError::MalformedRequestLine);
            },
            Some(words) => words,
        };
        let mut headers: Vec<Header> = Vec::new();
        let mut pos: usize = first_end;
        let mut more: bool = first_end < n;
        if more {
            pos = first_end + 2;
        }
        assert(header_pairs(headers@) =~= Seq::empty());
        while more && pos < n
            invariant
                n == head@.len(),
                pos <= n,
                headers_from(head@, first_end + 2) == header_pairs(headers@) + if more {
                    headers_from(head@, pos as int)
                } else {
                    Seq::empty()
                },
            decreases
                    if more {
                        n - pos + 1
                    } else {
                        0
                    },
        {
            let end: usize = find_line_end(head, pos);
            let ghost before = headers@;
            let ghost rest = if end < n {
                headers_from(head@, end + 2)
            } else {
                Seq::empty()
            };
            match parse_header_line(slice_subrange(head, pos, end)) {
                Some(h) => {
                    headers.push(h);
                    assert(header_pairs(headers@) =~= header_pairs(before) + seq![h.pair()]);
                    assert(header_pairs(before) + (seq![h.pair()] + rest) =~= header_pairs(
                        headers@,
                    ) + rest);
                    assert(seq![h.pair()] + Seq::empty() =~= seq![h.pair()]);
                },
                None => {
                    assert(Seq::<(Seq<u8>, Seq<u8>)>::empty() + rest =~= rest);
                },
            }
            if end < n {
                pos = end + 2;
            } else {
                more = false;
            }
        }
        assert(header_pairs(headers@) + Seq::empty() =~= header_pairs(headers@));
        Ok(Request { method, target, version, headers })
    }

    /// The value of the first header called `name`, letters of the name
    /// matching in either case.
    pub fn get(&self, name: &[u8]) -> (r: Option<&Vec<u8>>)
        ensures
            match lookup(self@.headers, name@) {
                Some(v) => r is Some && r.unwrap()@ == v,
                None => r is None,
            },
    {
        let n: usize = self.headers.len();
        let ghost all = self@.headers;
        let mut i: usize = 0;
        assert(all.subrange(0, all.len() as int) =~= all);
        while i < n
            invariant
                n == self.headers@.len(),
                all == header_pairs(self.headers@),
                i <= n,
                lookup(all, name@) == lookup(all.subrange(i as int, n as int), name@),
            decreases n - i,
        {
            let ghost cur = all.subrange(i as int, n as int);
            assert(cur[0] == self.headers@[i as int].pair());
            if names_match(self.headers[i].name.as_slice(), name) {
                return Some(&self.headers[i].value);
            }
            assert(cur.subrange(1, cur.len() as int) =~= all.subrange(i + 1, n as int));
            i += 1;
        }
        None
    }
}

} // verus!
