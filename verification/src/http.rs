//! HTTP/1.1 messages: requests are parsed line by line with their body framing (Content-Length
//! and chunked), responses and server-sent event streams are framed. The sockets are elsewhere.
use crate::chat::{lower_text, lowered};
use crate::text::{chars_eq, copy_range, find, find_from, from_chars, owned, push_decimal, push_text};
use crate::text::{decimal, digit_value, hex_char, hex_digit, hex_value, parse_u64, read_u64, to_chars};
use crate::text::{trim, trimmed};
use crate::utf8::{byte_len, law_byte_len};
use vstd::prelude::*;

verus! {

/// The most bytes that the request line and the headers may take.
pub const MAX_HEADER: usize = 65536;

/// The most bytes that a request body may take.
pub const MAX_BODY: usize = 67108864;

/// Why a request is refused.
#[derive(Clone, Copy, Debug, PartialEq, Eq, Structural)]
pub enum HttpError {
    LineTooLong,
    NoTarget,
    ClosedInHeaders,
    HeadersTooLarge,
    BadHeader,
    BadLength,
    BodyTooLarge,
    BadChunk,
}

impl HttpError {
    pub open spec fn message(self) -> Seq<char> {
        match self {
            HttpError::LineTooLong => "request line too long"@,
            HttpError::NoTarget => "missing request target"@,
            HttpError::ClosedInHeaders => "connection closed inside headers"@,
            HttpError::HeadersTooLarge => "headers too large"@,
            HttpError::BadHeader => "malformed header"@,
            HttpError::BadLength => "bad content-length"@,
            HttpError::BodyTooLarge => "body too large"@,
            HttpError::BadChunk => "bad chunk size"@,
        }
    }

    pub fn text(self) -> (s: &'static str)
        ensures
            s@ == self.message(),
    {
        match self {
            HttpError::LineTooLong => "request line too long",
            HttpError::NoTarget => "missing request target",
            HttpError::ClosedInHeaders => "connection closed inside headers",
            HttpError::HeadersTooLarge => "headers too large",
            HttpError::BadHeader => "malformed header",
            HttpError::BadLength => "bad content-length",
            HttpError::BodyTooLarge => "body too large",
            HttpError::BadChunk => "bad chunk size",
        }
    }
}

// ---- pieces of text -------------------------------------------------------------------------

/// The first place from `i` on where `c` stands; the length where it does not.
pub open spec fn place_of(s: Seq<char>, c: char, i: int) -> int
    decreases s.len() - i,
{
    if i < 0 || i >= s.len() {
        s.len() as int
    } else if s[i] == c {
        i
    } else {
        place_of(s, c, i + 1)
    }
}

/// The text before the first `c`; all of it where there is none.
pub open spec fn before_char(s: Seq<char>, c: char) -> Seq<char> {
    s.take(place_of(s, c, 0))
}

/// The text behind the first `c`, if there is one.
pub open spec fn after_char(s: Seq<char>, c: char) -> Option<Seq<char>> {
    let p = place_of(s, c, 0);
    if p < s.len() { Some(s.skip(p + 1)) } else { None }
}

/// A line without the line break at its end.
pub open spec fn without_break(s: Seq<char>) -> Seq<char>
    decreases s.len(),
{
    if s.len() > 0 && (s.last() == '\r' || s.last() == '\n') {
        without_break(s.drop_last())
    } else {
        s
    }
}

pub proof fn lemma_place_of(s: Seq<char>, c: char, i: int)
    requires
        0 <= i <= s.len(),
    ensures
        i <= place_of(s, c, i) <= s.len(),
    decreases s.len() - i,
{
    if i < s.len() && s[i] != c {
        lemma_place_of(s, c, i + 1);
    }
}

fn place_of_char(s: &[char], c: char) -> (p: usize)
    ensures
        p == place_of(s@, c, 0),
        p <= s@.len(),
{
    let n: usize = s.len();
    let mut i: usize = 0;
    while i < n
        invariant
            i <= n,
            n == s@.len(),
            place_of(s@, c, i as int) == place_of(s@, c, 0),
        decreases n - i,
    {
        if s[i] == c {
            return i;
        }
        i = i + 1;
    }
    n
}

pub(crate) fn split_char(s: &[char], c: char) -> (r: (Vec<char>, Option<Vec<char>>))
    ensures
        r.0@ == before_char(s@, c),
        match after_char(s@, c) {
            Some(t) => r.1 matches Some(v) && v@ == t,
            None => r.1 is None,
        },
{
    let n: usize = s.len();
    let p: usize = place_of_char(s, c);
    let a: Vec<char> = copy_range(s, 0, p);
    assert(a@ =~= before_char(s@, c));
    if p < n {
        let b: Vec<char> = copy_range(s, p + 1, n);
        assert(b@ =~= s@.skip(p + 1));
        (a, Some(b))
    } else {
        (a, None)
    }
}

fn strip_break(s: &[char]) -> (v: Vec<char>)
    ensures
        v@ == without_break(s@),
{
    let mut n: usize = s.len();
    assert(s@.take(n as int) =~= s@);
    while n > 0 && (s[n - 1] == '\r' || s[n - 1] == '\n')
        invariant
            n <= s@.len(),
            without_break(s@.take(n as int)) == without_break(s@),
        decreases n,
    {
        assert(s@.take(n as int).drop_last() =~= s@.take(n - 1));
        n = n - 1;
    }
    let v: Vec<char> = copy_range(s, 0, n);
    assert(v@ =~= s@.take(n as int));
    v
}

/// Whether `pat` stands somewhere in the text.
pub open spec fn holds_text(s: Seq<char>, pat: Seq<char>) -> bool {
    find_from(s, pat, 0) is Some
}

/// A number may have a plus sign before its digits.
pub open spec fn without_plus(s: Seq<char>) -> Seq<char> {
    if s.len() > 0 && s[0] == '+' { s.skip(1) } else { s }
}

pub(crate) fn strip_plus(s: &[char]) -> (v: Vec<char>)
    ensures
        v@ == without_plus(s@),
{
    let n: usize = s.len();
    let from: usize = if n > 0 && s[0] == '+' { 1 } else { 0 };
    let v: Vec<char> = copy_range(s, from, n);
    assert(v@ =~= without_plus(s@));
    v
}

/// The number that hexadecimal digits of either case stand for.
pub open spec fn hex_number(s: Seq<char>) -> Option<nat>
    decreases s.len(),
{
    if s.len() == 0 {
        Some(0)
    } else {
        match (hex_number(s.drop_last()), hex_value(s.last())) {
            (Some(a), Some(d)) => Some(16 * a + d as nat),
            _ => None,
        }
    }
}

/// The size that a chunk's line gives: hexadecimal digits, perhaps with a plus sign before and
/// extensions behind them.
pub open spec fn chunk_size(line: Seq<char>) -> Option<u64> {
    let t = without_plus(trim(before_char(trim(line), ';')));
    match hex_number(t) {
        Some(n) => if t.len() > 0 && n <= u64::MAX { Some(n as u64) } else { None },
        None => None,
    }
}

fn read_hex(s: &[char]) -> (r: Option<u64>)
    ensures
        match hex_number(s@) {
            Some(n) => if s@.len() > 0 && n <= u64::MAX { r == Some(n as u64) } else { r is None },
            None => r is None,
        },
{
    let n: usize = s.len();
    if n == 0 {
        return None;
    }
    let mut i: usize = 0;
    let mut v: u64 = 0;
    let mut over: bool = false;
    assert(s@.take(0) =~= Seq::<char>::empty());
    while i < n
        invariant
            i <= n,
            n == s@.len(),
            hex_number(s@.take(i as int)) matches Some(x) && (if over { x > u64::MAX } else { x == v }),
        decreases n - i,
    {
        assert(s@.take(i + 1).drop_last() =~= s@.take(i as int));
        assert(s@.take(i + 1).last() == s@[i as int]);
        match digit_value(s[i]) {
            Some(d) => {
                if !over {
                    if v > u64::MAX / 16 || 16 * v > u64::MAX - d as u64 {
                        over = true;
                    } else {
                        v = 16 * v + d as u64;
                    }
                }
            },
            None => {
                proof {
                    lemma_hex_stops(s@, i + 1, n as int);
                    assert(s@.take(n as int) =~= s@);
                }
                return None;
            },
        }
        i = i + 1;
    }
    assert(s@.take(n as int) =~= s@);
    if over { None } else { Some(v) }
}

proof fn lemma_hex_stops(s: Seq<char>, m: int, n: int)
    requires
        0 <= m <= n <= s.len(),
        hex_number(s.take(m)) is None,
    ensures
        hex_number(s.take(n)) is None,
    decreases n,
{
    if m < n {
        lemma_hex_stops(s, m, n - 1);
        assert(s.take(n).drop_last() =~= s.take(n - 1));
    }
}

// ---- requests -------------------------------------------------------------------------------

/// One header; the name in lower case.
#[verifier::ext_equal]
pub struct HeaderView {
    pub name: Seq<char>,
    pub value: Seq<char>,
}

pub open spec fn header_views(h: Seq<(String, String)>) -> Seq<HeaderView> {
    Seq::new(h.len(), |i: int| HeaderView { name: h[i].0@, value: h[i].1@ })
}

/// The value of the first header of that name, from entry `i` on.
pub open spec fn header_value(h: Seq<HeaderView>, name: Seq<char>, i: int) -> Option<Seq<char>>
    decreases h.len() - i,
{
    if i < 0 || i >= h.len() {
        None
    } else if h[i].name == name {
        Some(h[i].value)
    } else {
        header_value(h, name, i + 1)
    }
}

pub struct Request {
    pub method: String,
    pub path: String,
    /// Names lower-cased.
    pub headers: Vec<(String, String)>,
    pub body: Vec<u8>,
    pub keep_alive: bool,
}

fn find_header<'a>(headers: &'a Vec<(String, String)>, name: &str) -> (r: Option<&'a str>)
    ensures
        match header_value(header_views(headers@), name@, 0) {
            Some(v) => r matches Some(s) && s@ == v,
            None => r is None,
        },
{
    let ghost h = header_views(headers@);
    let n: usize = headers.len();
    let mut i: usize = 0;
    while i < n
        invariant
            i <= n,
            n == headers@.len(),
            h == header_views(headers@),
            header_value(h, name@, i as int) == header_value(h, name@, 0),
        decreases n - i,
    {
        assert(h[i as int].name == headers@[i as int].0@);
        if crate::text::str_eq(headers[i].0.as_str(), name) {
            return Some(headers[i].1.as_str());
        }
        i = i + 1;
    }
    None
}

impl Request {
    /// The value of the first header of that (lower-case) name.
    pub fn header(&self, name: &str) -> (r: Option<&str>)
        ensures
            match header_value(header_views(self.headers@), name@, 0) {
                Some(v) => r matches Some(s) && s@ == v,
                None => r is None,
            },
    {
        find_header(&self.headers, name)
    }
}

/// What a request consists of next.
#[derive(Clone, Copy, Debug, PartialEq, Eq, Structural)]
pub enum Phase {
    /// The request line.
    Line,
    /// A header, or the empty line behind them.
    Headers,
    /// A body of so many bytes.
    Sized(usize),
    /// The line with the size of a chunk.
    Size,
    /// A chunk of so many bytes, and the line break behind it.
    Chunk(usize),
    /// A trailer, or the empty line behind them.
    Trailers,
    /// Nothing: the request is complete.
    Done,
    /// Nothing: the connection was closed before a request.
    Closed,
}

/// A request in the making, as a value.
#[verifier::ext_equal]
pub struct ParserView {
    pub phase: Phase,
    pub method: Seq<char>,
    pub path: Seq<char>,
    pub version: Seq<char>,
    pub headers: Seq<HeaderView>,
    /// Bytes of the request line and the headers so far.
    pub total: int,
    pub body: Seq<u8>,
    pub keep_alive: bool,
}

impl ParserView {
    pub open spec fn empty() -> ParserView {
        ParserView {
            phase: Phase::Line,
            method: Seq::empty(),
            path: Seq::empty(),
            version: Seq::empty(),
            headers: Seq::empty(),
            total: 0,
            body: Seq::empty(),
            keep_alive: false,
        }
    }

    pub open spec fn header(self, name: Seq<char>) -> Option<Seq<char>> {
        header_value(self.headers, name, 0)
    }

    /// The value of a header in lower case; empty without it.
    pub open spec fn lower_header(self, name: Seq<char>) -> Seq<char> {
        match self.header(name) {
            Some(v) => lower_text(v),
            None => Seq::empty(),
        }
    }

    /// HTTP/1.0 connections close unless asked to stay, later ones stay unless asked to close.
    pub open spec fn stays_open(self) -> bool {
        let c = self.lower_header("connection"@);
        if self.version == "HTTP/1.0"@ {
            holds_text(c, "keep-alive"@)
        } else {
            !holds_text(c, "close"@)
        }
    }

    pub open spec fn chunked(self) -> bool {
        holds_text(self.lower_header("transfer-encoding"@), "chunked"@)
    }

    /// The length that the headers give; 0 where they give none.
    pub open spec fn length(self) -> Option<u64> {
        match self.header("content-length"@) {
            Some(v) => parse_u64(without_plus(v)),
            None => Some(0),
        }
    }

    /// Whether the client waits for a word before it sends the body.
    pub open spec fn awaits_continue(self) -> bool {
        &&& self.chunked() || (self.length() matches Some(n) && n > 0)
        &&& self.lower_header("expect"@) == "100-continue"@
    }

    /// The end of the headers.
    pub open spec fn head_done(self) -> Result<ParserView, HttpError> {
        match self.length() {
            None => Err(HttpError::BadLength),
            Some(n) => if n > MAX_BODY {
                Err(HttpError::BodyTooLarge)
            } else {
                Ok(
                    ParserView {
                        keep_alive: self.stays_open(),
                        phase: if self.chunked() {
                            Phase::Size
                        } else if n > 0 {
                            Phase::Sized(n as usize)
                        } else {
                            Phase::Done
                        },
                        ..self
                    },
                )
            },
        }
    }

    /// The request line.
    pub open spec fn first_line(self, line: Seq<char>) -> Result<ParserView, HttpError> {
        let t = without_break(line);
        if line.len() == 0 {
            Ok(ParserView { phase: Phase::Closed, ..self })
        } else if byte_len(line) > MAX_HEADER {
            Err(HttpError::LineTooLong)
        } else if t.len() == 0 {
            Ok(self)
        } else {
            match after_char(t, ' ') {
                None => Err(HttpError::NoTarget),
                Some(r) => Ok(
                    ParserView {
                        phase: Phase::Headers,
                        method: before_char(t, ' '),
                        path: before_char(before_char(r, ' '), '?'),
                        version: match after_char(r, ' ') {
                            Some(v) => before_char(v, ' '),
                            None => "HTTP/1.0"@,
                        },
                        total: byte_len(line),
                        ..self
                    },
                ),
            }
        }
    }

    /// A header, or the empty line behind them.
    pub open spec fn header_line(self, line: Seq<char>) -> Result<ParserView, HttpError> {
        let t = without_break(line);
        let v = ParserView { total: self.total + byte_len(line), ..self };
        if line.len() == 0 {
            Err(HttpError::ClosedInHeaders)
        } else if v.total > MAX_HEADER {
            Err(HttpError::HeadersTooLarge)
        } else if t.len() == 0 {
            v.head_done()
        } else {
            match after_char(t, ':') {
                None => Err(HttpError::BadHeader),
                Some(value) => Ok(
                    ParserView {
                        headers: v.headers.push(
                            HeaderView {
                                name: lower_text(trim(before_char(t, ':'))),
                                value: trim(value),
                            },
                        ),
                        ..v
                    },
                ),
            }
        }
    }

    /// The line with the size of a chunk.
    pub open spec fn size_line(self, line: Seq<char>) -> Result<ParserView, HttpError> {
        match chunk_size(line) {
            None => Err(HttpError::BadChunk),
            Some(n) => if n == 0 {
                Ok(ParserView { phase: Phase::Trailers, ..self })
            } else if self.body.len() + n > MAX_BODY {
                Err(HttpError::BodyTooLarge)
            } else {
                Ok(ParserView { phase: Phase::Chunk(n as usize), ..self })
            },
        }
    }

    /// After a line (empty at the end of the stream).
    pub open spec fn after_line(self, line: Seq<char>) -> Result<ParserView, HttpError> {
        match self.phase {
            Phase::Line => self.first_line(line),
            Phase::Headers => self.header_line(line),
            Phase::Size => self.size_line(line),
            Phase::Trailers => if without_break(line).len() == 0 {
                Ok(ParserView { phase: Phase::Done, ..self })
            } else {
                Ok(self)
            },
            _ => Ok(self),
        }
    }

    /// After bytes of the body.
    pub open spec fn after_bytes(self, bytes: Seq<u8>) -> ParserView {
        match self.phase {
            Phase::Sized(_) => ParserView { phase: Phase::Done, body: self.body + bytes, ..self },
            Phase::Chunk(_) => ParserView { phase: Phase::Size, body: self.body + bytes, ..self },
            _ => self,
        }
    }
}

/// A request in the making. The caller reads what the phase asks for and hands it over.
pub struct Parser {
    phase: Phase,
    method: String,
    path: String,
    version: String,
    headers: Vec<(String, String)>,
    total: usize,
    body: Vec<u8>,
    keep_alive: bool,
}

impl View for Parser {
    type V = ParserView;

    closed spec fn view(&self) -> ParserView {
        ParserView {
            phase: self.phase,
            method: self.method@,
            path: self.path@,
            version: self.version@,
            headers: header_views(self.headers@),
            total: self.total as int,
            body: self.body@,
            keep_alive: self.keep_alive,
        }
    }
}

fn text_has(s: &[char], pat: &str) -> (r: bool)
    ensures
        r == holds_text(s@, pat@),
{
    find(s, to_chars(pat).as_slice(), 0).is_some()
}

impl Parser {
    /// The head stays within its limit, and so does the body.
    pub closed spec fn sound(&self) -> bool {
        &&& self.total <= MAX_HEADER
        &&& self.body@.len() <= MAX_BODY
        &&& match self.phase {
            Phase::Sized(n) => self.body@.len() + n <= MAX_BODY,
            Phase::Chunk(n) => self.body@.len() + n <= MAX_BODY,
            _ => true,
        }
        &&& self.phase is Line || self.phase is Headers ==> self.body@.len() == 0
    }

    pub fn new() -> (p: Parser)
        ensures
            p.sound(),
            p@ == ParserView::empty(),
    {
        let p = Parser {
            phase: Phase::Line,
            method: String::new(),
            path: String::new(),
            version: String::new(),
            headers: Vec::new(),
            total: 0,
            body: Vec::new(),
            keep_alive: false,
        };
        assert(p@ =~= ParserView::empty());
        p
    }

    /// Whatever was read, the head of a request stays within its limit, and so does its body,
    /// with what is still to come of the part that was announced.
    pub proof fn law_within_limits(&self)
        requires
            self.sound(),
        ensures
            self@.total <= MAX_HEADER,
            self@.body.len() <= MAX_BODY,
            self@.phase matches Phase::Sized(n) ==> self@.body.len() + n <= MAX_BODY,
            self@.phase matches Phase::Chunk(n) ==> self@.body.len() + n <= MAX_BODY,
    {
    }

    pub fn phase(&self) -> (p: Phase)
        ensures
            p == self@.phase,
    {
        self.phase
    }

    fn lower_header(&self, name: &str) -> (v: Vec<char>)
        ensures
            v@ == self@.lower_header(name@),
    {
        match find_header(&self.headers, name) {
            Some(v) => lowered(to_chars(v).as_slice()),
            None => Vec::new(),
        }
    }

    /// Whether a body is announced in chunks.
    pub fn chunked(&self) -> (r: bool)
        ensures
            r == self@.chunked(),
    {
        text_has(self.lower_header("transfer-encoding").as_slice(), "chunked")
    }

    fn length(&self) -> (r: Option<u64>)
        ensures
            r == self@.length(),
    {
        match find_header(&self.headers, "content-length") {
            Some(v) => read_u64(strip_plus(to_chars(v).as_slice()).as_slice()),
            None => Some(0),
        }
    }

    /// Whether the client waits for `100 Continue` before it sends the body.
    pub fn awaits_continue(&self) -> (r: bool)
        ensures
            r == self@.awaits_continue(),
    {
        let some: bool = match self.length() {
            Some(n) => n > 0,
            None => false,
        };
        (self.chunked() || some) && chars_eq(
            self.lower_header("expect").as_slice(),
            to_chars("100-continue").as_slice(),
        )
    }

    fn end_head(&mut self) -> (r: Result<(), HttpError>)
        requires
            old(self).sound(),
            old(self)@.body.len() == 0,
        ensures
            match old(self)@.head_done() {
                Ok(v) => r is Ok && final(self)@ == v && final(self).sound(),
                Err(e) => r == Err::<(), HttpError>(e),
            },
    {
        match self.length() {
            None => Err(HttpError::BadLength),
            Some(n) => {
                if n > MAX_BODY as u64 {
                    return Err(HttpError::BodyTooLarge);
                }
                let conn: Vec<char> = self.lower_header("connection");
                self.keep_alive = if crate::text::str_eq(self.version.as_str(), "HTTP/1.0") {
                    text_has(conn.as_slice(), "keep-alive")
                } else {
                    !text_has(conn.as_slice(), "close")
                };
                self.phase = if self.chunked() {
                    Phase::Size
                } else if n > 0 {
                    Phase::Sized(n as usize)
                } else {
                    Phase::Done
                };
                assert(self@ =~= old(self)@.head_done()->Ok_0);
                Ok(())
            },
        }
    }

    /// Take the next line, with its line break (empty at the end of the stream).
    pub fn line(&mut self, line: &str) -> (r: Result<(), HttpError>)
        requires
            old(self).sound(),
        ensures
            match old(self)@.after_line(line@) {
                Ok(v) => r is Ok && final(self)@ == v && final(self).sound(),
                Err(e) => r == Err::<(), HttpError>(e),
            },
    {
        let size: usize = line.as_bytes().len();
        let s: Vec<char> = to_chars(line);
        proof {
            law_byte_len(line@);
        }
        match self.phase {
            Phase::Line => {
                let t: Vec<char> = strip_break(s.as_slice());
                if s.len() == 0 {
                    self.phase = Phase::Closed;
                    assert(self@ =~= old(self)@.first_line(line@)->Ok_0);
                    return Ok(());
                }
                if size > MAX_HEADER {
                    return Err(HttpError::LineTooLong);
                }
                if t.len() == 0 {
                    return Ok(());
                }
                let (method, rest) = split_char(t.as_slice(), ' ');
                match rest {
                    None => Err(HttpError::NoTarget),
                    Some(r) => {
                        let (target, more) = split_char(r.as_slice(), ' ');
                        let (path, _) = split_char(target.as_slice(), '?');
                        self.version = match more {
                            Some(v) => {
                                let (version, _) = split_char(v.as_slice(), ' ');
                                from_chars(version.as_slice())
                            },
                            None => owned("HTTP/1.0"),
                        };
                        self.method = from_chars(method.as_slice());
                        self.path = from_chars(path.as_slice());
                        self.total = size;
                        self.phase = Phase::Headers;
                        assert(self@ =~= old(self)@.first_line(line@)->Ok_0);
                        Ok(())
                    },
                }
            },
            Phase::Headers => {
                if s.len() == 0 {
                    return Err(HttpError::ClosedInHeaders);
                }
                if size > MAX_HEADER - self.total {
                    return Err(HttpError::HeadersTooLarge);
                }
                self.total = self.total + size;
                let t: Vec<char> = strip_break(s.as_slice());
                if t.len() == 0 {
                    assert(self@ =~= (ParserView { total: self@.total, ..old(self)@ }));
                    return self.end_head();
                }
                let (name, value) = split_char(t.as_slice(), ':');
                match value {
                    None => Err(HttpError::BadHeader),
                    Some(v) => {
                        let k: Vec<char> = lowered(trimmed(name.as_slice()).as_slice());
                        let w: Vec<char> = trimmed(v.as_slice());
                        self.headers.push((from_chars(k.as_slice()), from_chars(w.as_slice())));
                        assert(self@.headers =~= old(self)@.header_line(line@)->Ok_0.headers);
                        assert(self@ =~= old(self)@.header_line(line@)->Ok_0);
                        Ok(())
                    },
                }
            },
            Phase::Size => {
                let whole: Vec<char> = trimmed(s.as_slice());
                let (digits, _) = split_char(whole.as_slice(), ';');
                let t: Vec<char> = strip_plus(trimmed(digits.as_slice()).as_slice());
                match read_hex(t.as_slice()) {
                    None => Err(HttpError::BadChunk),
                    Some(n) => {
                        if n == 0 {
                            self.phase = Phase::Trailers;
                            assert(self@ =~= old(self)@.size_line(line@)->Ok_0);
                            return Ok(());
                        }
                        if n > (MAX_BODY - self.body.len()) as u64 {
                            return Err(HttpError::BodyTooLarge);
                        }
                        self.phase = Phase::Chunk(n as usize);
                        assert(self@ =~= old(self)@.size_line(line@)->Ok_0);
                        Ok(())
                    },
                }
            },
            Phase::Trailers => {
                let t: Vec<char> = strip_break(s.as_slice());
                if t.len() == 0 {
                    self.phase = Phase::Done;
                    assert(self@ =~= old(self)@.after_line(line@)->Ok_0);
                }
                Ok(())
            },
            _ => Ok(()),
        }
    }

    /// Take the bytes that a sized body or a chunk consists of.
    pub fn bytes(&mut self, bytes: &[u8])
        requires
            old(self).sound(),
            old(self)@.phase matches Phase::Sized(n) ==> bytes@.len() == n,
            old(self)@.phase matches Phase::Chunk(n) ==> bytes@.len() == n,
        ensures
            final(self).sound(),
            final(self)@ == old(self)@.after_bytes(bytes@),
    {
        match self.phase {
            Phase::Sized(_) => {
                crate::key::push_bytes(&mut self.body, bytes);
                self.phase = Phase::Done;
            },
            Phase::Chunk(_) => {
                crate::key::push_bytes(&mut self.body, bytes);
                self.phase = Phase::Size;
            },
            _ => {},
        }
        assert(self@ =~= old(self)@.after_bytes(bytes@));
    }

    /// The complete request.
    pub fn request(self) -> (r: Request)
        ensures
            r.method@ == self@.method,
            r.path@ == self@.path,
            header_views(r.headers@) == self@.headers,
            r.body@ == self@.body,
            r.keep_alive == self@.keep_alive,
    {
        Request {
            method: self.method,
            path: self.path,
            headers: self.headers,
            body: self.body,
            keep_alive: self.keep_alive,
        }
    }
}

// ---- responses ------------------------------------------------------------------------------

pub const CORS: &'static str = "Access-Control-Allow-Origin: *\r\nAccess-Control-Allow-Methods: GET, POST, OPTIONS\r\nAccess-Control-Allow-Headers: Authorization, Content-Type\r\n";

/// The end of a chunked response.
pub const END_OF_STREAM: &'static str = "0\r\n\r\n";

/// The interim response to a client that waits for it.
pub const CONTINUE: &'static str = "HTTP/1.1 100 Continue\r\n\r\n";

/// The reason phrase of a status.
pub open spec fn phrase(status: u16) -> Seq<char> {
    if status == 200 {
        "OK"@
    } else if status == 204 {
        "No Content"@
    } else if status == 400 {
        "Bad Request"@
    } else if status == 401 {
        "Unauthorized"@
    } else if status == 404 {
        "Not Found"@
    } else if status == 405 {
        "Method Not Allowed"@
    } else if status == 413 {
        "Payload Too Large"@
    } else if status == 500 {
        "Internal Server Error"@
    } else if status == 503 {
        "Service Unavailable"@
    } else {
        "Unknown"@
    }
}

pub fn reason(status: u16) -> (s: &'static str)
    ensures
        s@ == phrase(status),
{
    match status {
        200 => "OK",
        204 => "No Content",
        400 => "Bad Request",
        401 => "Unauthorized",
        404 => "Not Found",
        405 => "Method Not Allowed",
        413 => "Payload Too Large",
        500 => "Internal Server Error",
        503 => "Service Unavailable",
        _ => "Unknown",
    }
}

pub open spec fn connection_text(keep_alive: bool) -> Seq<char> {
    if keep_alive { "keep-alive"@ } else { "close"@ }
}

/// The head of a response with a body of `len` bytes.
pub fn response_head(status: u16, ctype: &str, len: usize, keep_alive: bool) -> (s: String)
    ensures
        s@ == "HTTP/1.1 "@ + decimal(status as nat) + " "@ + phrase(status) + "\r\nContent-Type: "@
            + ctype@ + "\r\nContent-Length: "@ + decimal(len as nat) + "\r\nConnection: "@
            + connection_text(keep_alive) + "\r\n"@ + CORS@ + "\r\n"@,
{
    let mut s: String = owned("HTTP/1.1 ");
    push_decimal(&mut s, status as u64);
    push_text(&mut s, " ");
    push_text(&mut s, reason(status));
    push_text(&mut s, "\r\nContent-Type: ");
    push_text(&mut s, ctype);
    push_text(&mut s, "\r\nContent-Length: ");
    push_decimal(&mut s, len as u64);
    push_text(&mut s, "\r\nConnection: ");
    push_text(&mut s, if keep_alive { "keep-alive" } else { "close" });
    push_text(&mut s, "\r\n");
    push_text(&mut s, CORS);
    push_text(&mut s, "\r\n");
    s
}

/// The head of a chunked `text/event-stream` response.
pub fn event_stream_head(keep_alive: bool) -> (s: String)
    ensures
        s@ == "HTTP/1.1 200 OK\r\nContent-Type: text/event-stream\r\nCache-Control: no-cache\r\nTransfer-Encoding: chunked\r\nConnection: "@
            + connection_text(keep_alive) + "\r\n"@ + CORS@ + "\r\n"@,
{
    let mut s: String = owned(
        "HTTP/1.1 200 OK\r\nContent-Type: text/event-stream\r\nCache-Control: no-cache\r\nTransfer-Encoding: chunked\r\nConnection: ",
    );
    push_text(&mut s, if keep_alive { "keep-alive" } else { "close" });
    push_text(&mut s, "\r\n");
    push_text(&mut s, CORS);
    push_text(&mut s, "\r\n");
    s
}

/// The lower-case hexadecimal text of a number, without leading zeros (`0` for zero).
pub open spec fn hexadecimal(n: nat) -> Seq<char>
    decreases n,
{
    if n < 16 {
        seq![hex_char(n as int)]
    } else {
        hexadecimal(n / 16).push(hex_char((n % 16) as int))
    }
}

/// Append the hexadecimal text of `n`.
pub fn push_hexadecimal(s: &mut String, n: u64)
    ensures
        final(s)@ == old(s)@ + hexadecimal(n as nat),
    decreases n,
{
    let d: u8 = (n % 16) as u8;
    if n >= 16 {
        push_hexadecimal(s, n / 16);
    }
    s.push(hex_digit(d));
    assert(s@ =~= old(s)@ + hexadecimal(n as nat));
}

/// The bytes of one chunk of a response: its size, a line break, the data and another line break.
/// An empty chunk would end the response, so nothing is sent for no data.
pub fn chunk_frame(data: &[u8]) -> (out: Vec<u8>)
    ensures
        out@ == if data@.len() == 0 {
            Seq::empty()
        } else {
            vstd::utf8::encode_utf8(hexadecimal(data@.len()) + "\r\n"@) + data@
                + vstd::utf8::encode_utf8("\r\n"@)
        },
{
    let mut out: Vec<u8> = Vec::new();
    let n: usize = data.len();
    if n == 0 {
        return out;
    }
    let mut s: String = String::new();
    push_hexadecimal(&mut s, n as u64);
    push_text(&mut s, "\r\n");
    assert(s@ =~= hexadecimal(data@.len()) + "\r\n"@);
    crate::key::push_bytes(&mut out, s.as_str().as_bytes());
    crate::key::push_bytes(&mut out, data);
    crate::key::push_bytes(&mut out, "\r\n".as_bytes());
    assert(out@ =~= vstd::utf8::encode_utf8(hexadecimal(data@.len()) + "\r\n"@) + data@
        + vstd::utf8::encode_utf8("\r\n"@));
    out
}

proof fn lemma_hexadecimal(n: nat)
    ensures
        hexadecimal(n).len() > 0,
        hex_number(hexadecimal(n)) == Some(n),
        forall|i: int| 0 <= i < hexadecimal(n).len() ==> hex_value(#[trigger] hexadecimal(n)[i]) is Some,
    decreases n,
{
    let s = hexadecimal(n);
    if n < 16 {
        reveal_with_fuel(hex_number, 2);
        assert(s.drop_last() =~= Seq::<char>::empty());
    } else {
        lemma_hexadecimal(n / 16);
        assert(s.drop_last() =~= hexadecimal(n / 16));
        assert forall|i: int| 0 <= i < s.len() implies hex_value(#[trigger] s[i]) is Some by {
            if i < s.len() - 1 {
                assert(s[i] == hexadecimal(n / 16)[i]);
            }
        }
    }
}

/// Text that neither starts nor ends with white space is its own trimmed form.
proof fn lemma_trim_solid(s: Seq<char>)
    requires
        s.len() > 0,
        !crate::text::white(s[0]),
        !crate::text::white(s.last()),
    ensures
        trim(s) == s,
{
}

proof fn lemma_no_char(s: Seq<char>, c: char, i: int)
    requires
        0 <= i <= s.len(),
        forall|j: int| 0 <= j < s.len() ==> s[j] != c,
    ensures
        place_of(s, c, i) == s.len(),
    decreases s.len() - i,
{
    if i < s.len() {
        lemma_no_char(s, c, i + 1);
    }
}

/// A reader of chunks finds the size that was written for a chunk.
pub proof fn law_chunk_size_round_trip(n: u64)
    ensures
        chunk_size(hexadecimal(n as nat) + "\r\n"@) == Some(n),
{
    let h = hexadecimal(n as nat);
    lemma_hexadecimal(n as nat);
    reveal_strlit("\r\n");
    let line = h + "\r\n"@;
    assert forall|i: int| 0 <= i < h.len() implies h[i] != ';' && h[i] != '+' && !crate::text::white(
        h[i],
    ) by {
        assert(hex_value(h[i]) is Some);
    }
    assert(line[0] == h[0]);
    assert(crate::text::trim_start(line) == line);
    assert(line.last() == '\n');
    let l1 = line.drop_last();
    assert(l1 =~= h.push('\r'));
    assert(l1.drop_last() =~= h);
    reveal_with_fuel(crate::text::trim_end, 3);
    assert(crate::text::trim_end(line) == h);
    assert(trim(line) == h);
    lemma_no_char(h, ';', 0);
    assert(before_char(h, ';') =~= h);
    lemma_trim_solid(h);
    assert(without_plus(h) == h);
}

/// A text is split at the first place of a character: what stands before it and what behind; where it
/// has none, all of it stands before.
pub proof fn law_split_at_the_first(a: Seq<char>, c: char, b: Seq<char>)
    requires
        forall|i: int| 0 <= i < a.len() ==> a[i] != c,
    ensures
        before_char(a + seq![c] + b, c) == a,
        after_char(a + seq![c] + b, c) == Some(b),
        before_char(a, c) == a,
        after_char(a, c) is None,
{
    let s = a + seq![c] + b;
    lemma_no_char(a, c, 0);
    lemma_first_place(s, c, 0, a.len() as int);
    assert(s.take(a.len() as int) =~= a);
    assert(s.skip(a.len() as int + 1) =~= b);
    assert(a.take(a.len() as int) =~= a);
}

proof fn lemma_first_place(s: Seq<char>, c: char, i: int, k: int)
    requires
        0 <= i <= k < s.len(),
        s[k] == c,
        forall|j: int| i <= j < k ==> s[j] != c,
    ensures
        place_of(s, c, i) == k,
    decreases k - i,
{
    if i < k {
        lemma_first_place(s, c, i + 1, k);
    }
}

/// A line is taken without its line end.
pub proof fn law_line_end_is_left_out(s: Seq<char>)
    requires
        s.len() > 0 ==> s.last() != '\r' && s.last() != '\n',
    ensures
        without_break(s) == s,
        without_break(s + seq!['\r', '\n']) == s,
        without_break(s + seq!['\n']) == s,
{
    reveal_with_fuel(without_break, 3);
    let a = s + seq!['\n'];
    assert(a.drop_last() =~= s);
    let b = s + seq!['\r', '\n'];
    assert(b.drop_last() =~= s + seq!['\r']);
    assert((s + seq!['\r']).drop_last() =~= s);
}

/// Whether a text holds none of the characters that structure a request line.
pub open spec fn plain_word(s: Seq<char>) -> bool {
    forall|i: int| 0 <= i < s.len() ==> s[i] != ' ' && s[i] != '?' && s[i] != '\r' && s[i] != '\n'
}

/// A request line gives the method, the path and the version that stand in it, one blank between two
/// of them; what follows a question mark in the target is no part of the path.
pub proof fn law_request_line_is_read(
    p: ParserView,
    m: Seq<char>,
    t: Seq<char>,
    q: Seq<char>,
    v: Seq<char>,
)
    requires
        plain_word(m) && plain_word(t) && plain_word(q) && plain_word(v),
        m.len() > 0 && v.len() > 0,
        byte_len(m + seq![' '] + t + seq!['?'] + q + seq![' '] + v + seq!['\r', '\n']) <= MAX_HEADER,
        byte_len(m + seq![' '] + t + seq![' '] + v + seq!['\r', '\n']) <= MAX_HEADER,
    ensures
        ({
            let line = m + seq![' '] + t + seq![' '] + v + seq!['\r', '\n'];
            p.first_line(line) matches Ok(r) && r.method == m && r.path == t && r.version == v && r.phase
                == Phase::Headers && r.total == byte_len(line) && r.headers == p.headers && r.body == p.body
        }),
        p.first_line(m + seq![' '] + t + seq!['?'] + q + seq![' '] + v + seq!['\r', '\n']) matches Ok(r)
            && r.method == m && r.path == t && r.version == v && r.phase == Phase::Headers,
{
    let rest = t + seq![' '] + v;
    let all = m + seq![' '] + rest;
    let line = m + seq![' '] + t + seq![' '] + v + seq!['\r', '\n'];
    assert(line =~= all + seq!['\r', '\n']);
    assert(all.last() == v.last());
    law_line_end_is_left_out(all);
    law_split_at_the_first(m, ' ', rest);
    law_split_at_the_first(t, ' ', v);
    law_split_at_the_first(v, ' ', Seq::empty());
    law_split_at_the_first(t, '?', q);
    let target = t + seq!['?'] + q;
    let rest = target + seq![' '] + v;
    let all = m + seq![' '] + rest;
    let line = m + seq![' '] + t + seq!['?'] + q + seq![' '] + v + seq!['\r', '\n'];
    assert(line =~= all + seq!['\r', '\n']);
    assert(all.last() == v.last());
    law_line_end_is_left_out(all);
    law_split_at_the_first(m, ' ', rest);
    law_split_at_the_first(target, ' ', v);
}

/// A header line gives a header: its name in small letters, and its value, both without the white
/// space around them.
pub proof fn law_header_line_is_read(p: ParserView, name: Seq<char>, value: Seq<char>)
    requires
        forall|i: int| 0 <= i < name.len() ==> name[i] != ':' && name[i] != '\r' && name[i] != '\n',
        value.len() > 0,
        value.last() != '\r' && value.last() != '\n',
        p.total + byte_len(name + seq![':'] + value + seq!['\r', '\n']) <= MAX_HEADER,
    ensures
        p.header_line(name + seq![':'] + value + seq!['\r', '\n']) matches Ok(r) && r.headers
            == p.headers.push(HeaderView { name: lower_text(trim(name)), value: trim(value) }) && r.phase
            == p.phase && r.method == p.method && r.path == p.path,
{
    let all = name + seq![':'] + value;
    let line = name + seq![':'] + value + seq!['\r', '\n'];
    assert(line =~= all + seq!['\r', '\n']);
    assert(all.last() == value.last());
    law_line_end_is_left_out(all);
    law_split_at_the_first(name, ':', value);
}

/// Of several headers of a name the first counts.
pub proof fn law_first_header_counts(p: ParserView, name: Seq<char>, k: int)
    requires
        0 <= k <= p.headers.len(),
        forall|j: int| 0 <= j < k ==> (#[trigger] p.headers[j]).name != name,
    ensures
        k < p.headers.len() && p.headers[k].name == name ==> p.header(name) == Some(p.headers[k].value),
        k == p.headers.len() ==> p.header(name) is None,
{
    lemma_header_value(p.headers, name, 0, k);
}

proof fn lemma_header_value(h: Seq<HeaderView>, name: Seq<char>, i: int, k: int)
    requires
        0 <= i <= k <= h.len(),
        forall|j: int| i <= j < k ==> (#[trigger] h[j]).name != name,
    ensures
        header_value(h, name, i) == header_value(h, name, k),
    decreases k - i,
{
    if i < k {
        assert(h[i].name != name);
        lemma_header_value(h, name, i + 1, k);
    }
}

/// The body that a head announces: in chunks where its transfer encoding says so, else as long as its
/// content length, and none without one; too long a one is refused, and so is a length that is no
/// number.
pub proof fn law_announced_body(p: ParserView)
    ensures
        p.header("content-length"@) is None ==> p.length() == Some(0u64),
        p.header("content-length"@) matches Some(v) ==> p.length() == parse_u64(without_plus(v)),
        p.length() is None ==> p.head_done() == Err::<ParserView, HttpError>(HttpError::BadLength),
        p.length() matches Some(n) ==> (n > MAX_BODY ==> p.head_done() == Err::<ParserView, HttpError>(
            HttpError::BodyTooLarge,
        )),
        p.length() matches Some(n) ==> (n <= MAX_BODY ==> (p.head_done() matches Ok(r) && {
            &&& p.chunked() ==> r.phase == Phase::Size
            &&& !p.chunked() && n > 0 ==> r.phase == Phase::Sized(n as usize)
            &&& !p.chunked() && n == 0 ==> r.phase == Phase::Done
            &&& r.keep_alive == p.stays_open()
            &&& r.headers == p.headers && r.method == p.method && r.path == p.path && r.body == p.body
        })),
        p.header("transfer-encoding"@) is None ==> !p.chunked(),
        p.header("transfer-encoding"@) matches Some(v) ==> p.chunked() == (find_from(
            lower_text(v),
            "chunked"@,
            0,
        ) is Some),
{
    reveal_strlit("chunked");
    assert(find_from(Seq::<char>::empty(), "chunked"@, 0) is None);
}

/// A connection stays open by itself from version 1.1 on, unless it is to be closed; before that only
/// where it is asked for.
pub proof fn law_kept_connections(p: ParserView)
    ensures
        p.version != "HTTP/1.0"@ && p.header("connection"@) is None ==> p.stays_open(),
        p.version == "HTTP/1.0"@ && p.header("connection"@) is None ==> !p.stays_open(),
        p.header("connection"@) matches Some(v) ==> p.stays_open() == if p.version == "HTTP/1.0"@ {
            find_from(lower_text(v), "keep-alive"@, 0) is Some
        } else {
            find_from(lower_text(v), "close"@, 0) is None
        },
{
    reveal_strlit("close");
    reveal_strlit("keep-alive");
    assert(find_from(Seq::<char>::empty(), "close"@, 0) is None);
    assert(find_from(Seq::<char>::empty(), "keep-alive"@, 0) is None);
}

/// The bytes of a body are taken as they come; a chunk is followed by the next size, and one of size
/// zero by the trailers, behind which the request is complete.
pub proof fn law_body_is_taken_as_it_comes(p: ParserView, bytes: Seq<u8>, line: Seq<char>)
    ensures
        p.phase is Sized || p.phase is Chunk ==> p.after_bytes(bytes).body == p.body + bytes,
        p.phase is Sized ==> p.after_bytes(bytes).phase == Phase::Done,
        p.phase is Chunk ==> p.after_bytes(bytes).phase == Phase::Size,
        p.phase is Size ==> (chunk_size(line) matches Some(n) ==> {
            &&& n == 0 ==> (p.after_line(line) matches Ok(r) && r.phase == Phase::Trailers && r.body == p.body)
            &&& n > 0 && p.body.len() + n <= MAX_BODY ==> (p.after_line(line) matches Ok(r) && r.phase
                == Phase::Chunk(n as usize) && r.body == p.body)
            &&& n > 0 && p.body.len() + n > MAX_BODY ==> p.after_line(line) == Err::<ParserView, HttpError>(
                HttpError::BodyTooLarge,
            )
        }),
        p.phase is Size && chunk_size(line) is None ==> p.after_line(line) == Err::<ParserView, HttpError>(
            HttpError::BadChunk,
        ),
        p.phase is Trailers && without_break(line).len() == 0 ==> (p.after_line(line) matches Ok(r) && r.phase
            == Phase::Done && r.body == p.body),
        p.phase is Trailers && without_break(line).len() > 0 ==> p.after_line(line) == Ok::<
            ParserView,
            HttpError,
        >(p),
{
}

/// The head of a request ends with an empty line; before it, a line without a colon is refused, and a
/// line without a target before the headers.
pub proof fn law_malformed_heads_are_refused(p: ParserView, line: Seq<char>)
    requires
        line.len() > 0,
        p.total + byte_len(line) <= MAX_HEADER,
        0 <= p.total,
    ensures
        p.phase is Headers && without_break(line).len() == 0 ==> p.after_line(line) == (ParserView {
            total: p.total + byte_len(line),
            ..p
        }).head_done(),
        p.phase is Headers && without_break(line).len() > 0 && after_char(without_break(line), ':') is None
            ==> p.after_line(line) == Err::<ParserView, HttpError>(HttpError::BadHeader),
        p.phase is Line && without_break(line).len() > 0 && after_char(without_break(line), ' ') is None
            ==> p.after_line(line) == Err::<ParserView, HttpError>(HttpError::NoTarget),
        p.phase is Line && without_break(line).len() == 0 ==> p.after_line(line) == Ok::<ParserView, HttpError>(p),
{
}

/// The phrases of the statuses that are answered.
pub proof fn law_phrases()
    ensures
        phrase(200) == "OK"@ && phrase(204) == "No Content"@ && phrase(400) == "Bad Request"@,
        phrase(401) == "Unauthorized"@ && phrase(404) == "Not Found"@ && phrase(413) == "Payload Too Large"@,
        phrase(405) == "Method Not Allowed"@ && phrase(500) == "Internal Server Error"@,
        phrase(503) == "Service Unavailable"@,
        connection_text(true) == "keep-alive"@ && connection_text(false) == "close"@,
{
}

} // verus!
