//! The HTTP/1.x request-head parser: one request line plus a header block,
//! read from an in-memory byte buffer that holds the head of one request.
//!
//! Lines end with a line feed; a carriage return just before the line feed is
//! tolerated and stripped.  The request line is split on ASCII whitespace into
//! a method token, a path token, and an ignored remainder (the version).
//! Header lines are split on the first colon; name and value are trimmed of
//! surrounding whitespace.  A later occurrence of a header name overwrites an
//! earlier one.
use vstd::prelude::*;

verus! {

pub const LF: u8 = 10;
pub const CR: u8 = 13;
pub const SP: u8 = 32;
pub const TAB: u8 = 9;
pub const COLON: u8 = 58;

/// ASCII whitespace, as the request-line tokenizer and the header trimmer see it.
pub open spec fn is_ws(b: u8) -> bool {
    b == SP || b == TAB || b == CR || b == LF
}

/// `i` is the position of the first occurrence of `b` in `s`.
pub open spec fn is_first_at(s: Seq<u8>, b: u8, i: int) -> bool {
    &&& 0 <= i < s.len()
    &&& s[i] == b
    &&& forall|j: int| 0 <= j < i ==> s[j] != b
}

pub open spec fn has_byte(s: Seq<u8>, b: u8) -> bool {
    exists|i: int| is_first_at(s, b, i)
}

pub open spec fn first_at(s: Seq<u8>, b: u8) -> int {
    choose|i: int| is_first_at(s, b, i)
}

pub proof fn lemma_first_at_unique(s: Seq<u8>, b: u8, i: int)
    requires
        is_first_at(s, b, i),
    ensures
        has_byte(s, b),
        first_at(s, b) == i,
{
    assert(has_byte(s, b));
    let k = first_at(s, b);
    assert(is_first_at(s, b, k));
    if k < i {
        assert(s[k] != b);
    } else if i < k {
        assert(s[i] != b);
    }
}

/// `a` is where a run of whitespace starting at `from` ends: everything in
/// `[from, a)` is whitespace and `a` is the end of `s` or a non-whitespace byte.
pub open spec fn is_ws_end(s: Seq<u8>, from: int, a: int) -> bool {
    &&& from <= a <= s.len()
    &&& forall|j: int| from <= j < a ==> is_ws(s[j])
    &&& a < s.len() ==> !is_ws(s[a])
}

pub open spec fn ws_end(s: Seq<u8>, from: int) -> int {
    choose|a: int| is_ws_end(s, from, a)
}

pub proof fn lemma_ws_end_unique(s: Seq<u8>, from: int, a: int)
    requires
        is_ws_end(s, from, a),
    ensures
        ws_end(s, from) == a,
{
    let k = ws_end(s, from);
    assert(is_ws_end(s, from, k));
    if k < a {
        assert(is_ws(s[k]));
        assert(!is_ws(s[k]));
    } else if a < k {
        assert(is_ws(s[a]));
        assert(!is_ws(s[a]));
    }
}

/// `b` is where the token starting at `from` ends: everything in `[from, b)` is
/// non-whitespace and `b` is the end of `s` or a whitespace byte.
pub open spec fn is_tok_end(s: Seq<u8>, from: int, b: int) -> bool {
    &&& from <= b <= s.len()
    &&& forall|j: int| from <= j < b ==> !is_ws(s[j])
    &&& b < s.len() ==> is_ws(s[b])
}

pub open spec fn tok_end(s: Seq<u8>, from: int) -> int {
    choose|b: int| is_tok_end(s, from, b)
}

pub proof fn lemma_tok_end_unique(s: Seq<u8>, from: int, b: int)
    requires
        is_tok_end(s, from, b),
    ensures
        tok_end(s, from) == b,
{
    let k = tok_end(s, from);
    assert(is_tok_end(s, from, k));
    if k < b {
        assert(!is_ws(s[k]));
        assert(is_ws(s[k]));
    } else if b < k {
        assert(!is_ws(s[b]));
        assert(is_ws(s[b]));
    }
}

/// `b` is where trailing whitespace begins: everything in `[b, len)` is
/// whitespace and the byte just before `b`, if any, is not.
pub open spec fn is_trim_end(s: Seq<u8>, b: int) -> bool {
    &&& 0 <= b <= s.len()
    &&& forall|j: int| b <= j < s.len() ==> is_ws(s[j])
    &&& b > 0 ==> !is_ws(s[b - 1])
}

pub open spec fn trim_end(s: Seq<u8>) -> int {
    choose|b: int| is_trim_end(s, b)
}

pub proof fn lemma_trim_end_unique(s: Seq<u8>, b: int)
    requires
        is_trim_end(s, b),
    ensures
        trim_end(s) == b,
{
    let k = trim_end(s);
    assert(is_trim_end(s, k));
    if k < b {
        assert(is_ws(s[b - 1]));
        assert(!is_ws(s[b - 1]));
    } else if b < k {
        assert(is_ws(s[k - 1]));
        assert(!is_ws(s[k - 1]));
    }
}

/// `s` with surrounding whitespace removed.
pub open spec fn trim(s: Seq<u8>) -> Seq<u8> {
    let a = ws_end(s, 0);
    if a == s.len() {
        Seq::empty()
    } else {
        s.subrange(a, trim_end(s))
    }
}

/// A line with its optional trailing carriage return removed.
pub open spec fn strip_cr(line: Seq<u8>) -> Seq<u8> {
    if line.len() > 0 && line[line.len() - 1] == CR {
        line.drop_last()
    } else {
        line
    }
}

/// The HTTP verbs this listener recognizes.
#[derive(Debug, Copy, Clone, Eq, PartialEq, Hash, Structural)]
pub enum Method {
    Get,
}

/// The byte form of the one supported verb token.
pub open spec fn method_get_bytes() -> Seq<u8> {
    seq![71u8, 69u8, 84u8]
}

/// Why a request head was rejected.
#[derive(Debug, Clone, PartialEq, Eq)]
pub enum ParseError {
    /// End of the buffer came before the request line's terminator.
    MalformedRequestLine,
    /// The request line holds no token at all.
    MissingMethod,
    /// The request line holds a method token but no path token.
    MissingPath,
    /// The method token, carried along, is not a supported verb.
    UnsupportedMethod(Vec<u8>),
    /// A header line's name is empty once trimmed.
    MissingHeaderName,
    /// A header line has no colon, or its value is empty once trimmed.
    MissingHeaderValue,
    /// The buffer ran out before the blank line that ends the header block.
    UnexpectedEof,
}

/// The mathematical form of a `ParseError`.
pub enum ParseErrorModel {
    MalformedRequestLine,
    MissingMethod,
    MissingPath,
    UnsupportedMethod(Seq<u8>),
    MissingHeaderName,
    MissingHeaderValue,
    UnexpectedEof,
}

impl View for ParseError {
    type V = ParseErrorModel;

    open spec fn view(&self) -> ParseErrorModel {
        match self {
            ParseError::MalformedRequestLine => ParseErrorModel::MalformedRequestLine,
            ParseError::MissingMethod => ParseErrorModel::MissingMethod,
            ParseError::MissingPath => ParseErrorModel::MissingPath,
            ParseError::UnsupportedMethod(t) => ParseErrorModel::UnsupportedMethod(t@),
            ParseError::MissingHeaderName => ParseErrorModel::MissingHeaderName,
            ParseError::MissingHeaderValue => ParseErrorModel::MissingHeaderValue,
            ParseError::UnexpectedEof => ParseErrorModel::UnexpectedEof,
        }
    }
}

/// The mathematical form of a parsed request: the header block as the
/// last-write-wins mapping it denotes.
pub struct RequestModel {
    pub method: Method,
    pub path: Seq<u8>,
    pub headers: Map<Seq<u8>, Seq<u8>>,
}

/// One parsed request head.  `headers` keeps every header line in the order
/// read; the mapping the block denotes, with a later occurrence of a name
/// overwriting an earlier one, is the view's `headers` field.
#[derive(Debug, Clone, PartialEq, Eq)]
pub struct Request {
    pub method: Method,
    pub path: Vec<u8>,
    pub headers: Vec<(Vec<u8>, Vec<u8>)>,
}

/// The header entries as sequences of bytes.
pub open spec fn entries_view(hs: Seq<(Vec<u8>, Vec<u8>)>) -> Seq<(Seq<u8>, Seq<u8>)> {
    hs.map_values(|p: (Vec<u8>, Vec<u8>)| (p.0@, p.1@))
}

/// The mapping a list of header entries denotes, inserting in order so that
/// the last occurrence of a name wins, over a starting mapping `acc`.
pub open spec fn headers_map_fold(
    hs: Seq<(Seq<u8>, Seq<u8>)>,
    acc: Map<Seq<u8>, Seq<u8>>,
) -> Map<Seq<u8>, Seq<u8>>
    decreases hs.len(),
{
    if hs.len() == 0 {
        acc
    } else {
        headers_map_fold(hs.drop_first(), acc.insert(hs.first().0, hs.first().1))
    }
}

/// The mapping a list of header entries denotes, last write winning.
pub open spec fn headers_map_of(hs: Seq<(Seq<u8>, Seq<u8>)>) -> Map<Seq<u8>, Seq<u8>> {
    headers_map_fold(hs, Map::empty())
}

impl View for Request {
    type V = RequestModel;

    open spec fn view(&self) -> RequestModel {
        RequestModel {
            method: self.method,
            path: self.path@,
            headers: headers_map_of(entries_view(self.headers@)),
        }
    }
}

/// What the request line denotes: the method and the path, or the failure.
/// The first token is the method, the second the path; anything after the
/// path (the version) is ignored.
pub open spec fn spec_parse_request_line(line: Seq<u8>) -> Result<(Method, Seq<u8>), ParseErrorModel> {
    let a1 = ws_end(line, 0);
    if a1 == line.len() {
        Err(ParseErrorModel::MissingMethod)
    } else {
        let b1 = tok_end(line, a1);
        let m = line.subrange(a1, b1);
        if m != method_get_bytes() {
            Err(ParseErrorModel::UnsupportedMethod(m))
        } else {
            let a2 = ws_end(line, b1);
            if a2 == line.len() {
                Err(ParseErrorModel::MissingPath)
            } else {
                Ok((Method::Get, line.subrange(a2, tok_end(line, a2))))
            }
        }
    }
}

/// What one non-blank header line denotes: the trimmed name before the first
/// colon and the trimmed value after it, or the failure.
pub open spec fn spec_parse_header_line(line: Seq<u8>) -> Result<(Seq<u8>, Seq<u8>), ParseErrorModel> {
    if !has_byte(line, COLON) {
        Err(ParseErrorModel::MissingHeaderValue)
    } else {
        let c = first_at(line, COLON);
        let key = trim(line.subrange(0, c));
        let value = trim(line.subrange(c + 1, line.len() as int));
        if key.len() == 0 {
            Err(ParseErrorModel::MissingHeaderName)
        } else if value.len() == 0 {
            Err(ParseErrorModel::MissingHeaderValue)
        } else {
            Ok((key, value))
        }
    }
}

/// What the header block denotes, read line by line over the mapping built so
/// far, until the blank line that ends the head.  Running out of bytes before
/// that blank line is a failure, never a silently truncated block.
pub open spec fn spec_parse_headers(
    s: Seq<u8>,
    acc: Map<Seq<u8>, Seq<u8>>,
) -> Result<Map<Seq<u8>, Seq<u8>>, ParseErrorModel>
    decreases s.len(),
{
    if !has_byte(s, LF) {
        Err(ParseErrorModel::UnexpectedEof)
    } else {
        let e = first_at(s, LF);
        let line = strip_cr(s.subrange(0, e));
        let rest = s.subrange(e + 1, s.len() as int);
        if line.len() == 0 {
            Ok(acc)
        } else {
            match spec_parse_header_line(line) {
                Ok((k, v)) => spec_parse_headers(rest, acc.insert(k, v)),
                Err(err) => Err(err),
            }
        }
    }
}

/// What a whole request head denotes.
pub open spec fn spec_parse_request(head: Seq<u8>) -> Result<RequestModel, ParseErrorModel> {
    if !has_byte(head, LF) {
        Err(ParseErrorModel::MalformedRequestLine)
    } else {
        let e = first_at(head, LF);
        let line = strip_cr(head.subrange(0, e));
        let rest = head.subrange(e + 1, head.len() as int);
        match spec_parse_request_line(line) {
            Ok((m, p)) => match spec_parse_headers(rest, Map::empty()) {
                Ok(hs) => Ok(RequestModel { method: m, path: p, headers: hs }),
                Err(err) => Err(err),
            },
            Err(err) => Err(err),
        }
    }
}

fn byte_is_ws(b: u8) -> (r: bool)
    ensures
        r == is_ws(b),
{
    b == SP || b == TAB || b == CR || b == LF
}

/// The position of the first occurrence of `b` in `s` at or after `from`.
fn find_byte(s: &[u8], from: usize, b: u8) -> (r: Option<usize>)
    requires
        from <= s@.len(),
    ensures
        match r {
            Some(i) => from <= i < s@.len() && s@[i as int] == b && (forall|j: int|
                from <= j < i ==> s@[j] != b),
            None => forall|j: int| from <= j < s@.len() ==> s@[j] != b,
        },
{
    let mut i = from;
    while i < s.len()
        invariant
            from <= i <= s@.len(),
            forall|j: int| from <= j < i ==> s@[j] != b,
        decreases s@.len() - i,
    {
        if s[i] == b {
            return Some(i);
        }
        i = i + 1;
    }
    None
}

/// Where the whitespace run starting at `from` ends.
fn skip_ws(s: &[u8], from: usize) -> (a: usize)
    requires
        from <= s@.len(),
    ensures
        from <= a <= s@.len(),
        is_ws_end(s@, from as int, a as int),
{
    let mut i = from;
    while i < s.len()
        invariant
            from <= i <= s@.len(),
            forall|j: int| from <= j < i ==> is_ws(s@[j]),
        decreases s@.len() - i,
    {
        if !byte_is_ws(s[i]) {
            return i;
        }
        i = i + 1;
    }
    i
}

/// Where the token starting at `from` ends.
fn scan_token(s: &[u8], from: usize) -> (b: usize)
    requires
        from <= s@.len(),
    ensures
        from <= b <= s@.len(),
        is_tok_end(s@, from as int, b as int),
{
    let mut i = from;
    while i < s.len()
        invariant
            from <= i <= s@.len(),
            forall|j: int| from <= j < i ==> !is_ws(s@[j]),
        decreases s@.len() - i,
    {
        if byte_is_ws(s[i]) {
            return i;
        }
        i = i + 1;
    }
    i
}

/// The part of `s` with surrounding whitespace removed.
fn trim_slice<'a>(s: &'a [u8]) -> (r: &'a [u8])
    ensures
        r@ == trim(s@),
{
    let a = skip_ws(s, 0);
    proof {
        lemma_ws_end_unique(s@, 0, a as int);
    }
    if a == s.len() {
        let empty = vstd::slice::slice_subrange(s, 0, 0);
        proof {
            assert(trim(s@) =~= empty@);
        }
        return empty;
    }
    let mut b = s.len();
    while b > a + 1 && byte_is_ws(s[b - 1])
        invariant
            a < b <= s@.len(),
            forall|j: int| b <= j < s@.len() ==> is_ws(s@[j]),
        decreases b,
    {
        b = b - 1;
    }
    proof {
        // The byte before `b` is not whitespace: either the loop stopped on
        // it, or `b` came down to `a + 1` and `s[a]` starts a token.
        assert(!is_ws(s@[b - 1]));
        assert(is_trim_end(s@, b as int));
        lemma_trim_end_unique(s@, b as int);
    }
    vstd::slice::slice_subrange(s, a, b)
}

impl Method {
    /// Resolve a method token against the supported verb set.
    pub fn try_from(token: &[u8]) -> (r: Result<Method, ParseError>)
        ensures
            token@ == method_get_bytes() ==> r == Ok::<Method, ParseError>(Method::Get),
            token@ != method_get_bytes() ==> (r matches Err(e)
                && e@ == ParseErrorModel::UnsupportedMethod(token@)),
    {
        if token.len() == 3 && token[0] == 71 && token[1] == 69 && token[2] == 84 {
            proof {
                assert(token@ =~= method_get_bytes());
            }
            Ok(Method::Get)
        } else {
            proof {
                assert(token@ != method_get_bytes());
            }
            Err(ParseError::UnsupportedMethod(vstd::slice::slice_to_vec(token)))
        }
    }
}

/// Parse the request line: method token, path token, ignored remainder.
fn parse_request_line(line: &[u8]) -> (r: Result<(Method, Vec<u8>), ParseError>)
    ensures
        match r {
            Ok((m, p)) => spec_parse_request_line(line@) == Ok::<(Method, Seq<u8>), ParseErrorModel>(
                (m, p@),
            ),
            Err(e) => spec_parse_request_line(line@) == Err::<(Method, Seq<u8>), ParseErrorModel>(
                e@,
            ),
        },
{
    let a1 = skip_ws(line, 0);
    proof {
        lemma_ws_end_unique(line@, 0, a1 as int);
    }
    if a1 == line.len() {
        return Err(ParseError::MissingMethod);
    }
    let b1 = scan_token(line, a1);
    proof {
        lemma_tok_end_unique(line@, a1 as int, b1 as int);
    }
    let tok = vstd::slice::slice_subrange(line, a1, b1);
    let method = match Method::try_from(tok) {
        Ok(m) => m,
        Err(e) => {
            return Err(e);
        },
    };
    let a2 = skip_ws(line, b1);
    proof {
        lemma_ws_end_unique(line@, b1 as int, a2 as int);
    }
    if a2 == line.len() {
        return Err(ParseError::MissingPath);
    }
    let b2 = scan_token(line, a2);
    proof {
        lemma_tok_end_unique(line@, a2 as int, b2 as int);
    }
    let path = vstd::slice::slice_to_vec(vstd::slice::slice_subrange(line, a2, b2));
    Ok((method, path))
}

/// Parse one non-blank header line into its trimmed name and value.
fn parse_header_line(line: &[u8]) -> (r: Result<(Vec<u8>, Vec<u8>), ParseError>)
    ensures
        match r {
            Ok((k, v)) => spec_parse_header_line(line@) == Ok::<(Seq<u8>, Seq<u8>), ParseErrorModel>(
                (k@, v@),
            ),
            Err(e) => spec_parse_header_line(line@) == Err::<(Seq<u8>, Seq<u8>), ParseErrorModel>(
                e@,
            ),
        },
{
    let c = match find_byte(line, 0, COLON) {
        Some(c) => c,
        None => {
            proof {
                assert(!has_byte(line@, COLON));
            }
            return Err(ParseError::MissingHeaderValue);
        },
    };
    proof {
        lemma_first_at_unique(line@, COLON, c as int);
    }
    let key = trim_slice(vstd::slice::slice_subrange(line, 0, c));
    if key.len() == 0 {
        return Err(ParseError::MissingHeaderName);
    }
    let n = line.len();
    assert(c < n);
    let value = trim_slice(vstd::slice::slice_subrange(line, c + 1, n));
    if value.len() == 0 {
        return Err(ParseError::MissingHeaderValue);
    }
    Ok((vstd::slice::slice_to_vec(key), vstd::slice::slice_to_vec(value)))
}

proof fn lemma_headers_map_fold_push(
    hs: Seq<(Seq<u8>, Seq<u8>)>,
    acc: Map<Seq<u8>, Seq<u8>>,
    e: (Seq<u8>, Seq<u8>),
)
    ensures
        headers_map_fold(hs.push(e), acc) == headers_map_fold(hs, acc).insert(e.0, e.1),
    decreases hs.len(),
{
    reveal_with_fuel(headers_map_fold, 3);
    if hs.len() == 0 {
        assert(hs.push(e).first() == e);
        assert(hs.push(e).drop_first() =~= Seq::<(Seq<u8>, Seq<u8>)>::empty());
    } else {
        assert(hs.push(e).first() == hs.first());
        assert(hs.push(e).drop_first() =~= hs.drop_first().push(e));
        lemma_headers_map_fold_push(hs.drop_first(), acc.insert(hs.first().0, hs.first().1), e);
    }
}

proof fn lemma_entries_view_push(hs: Seq<(Vec<u8>, Vec<u8>)>, k: Vec<u8>, v: Vec<u8>)
    ensures
        entries_view(hs.push((k, v))) == entries_view(hs).push((k@, v@)),
{
    assert(entries_view(hs.push((k, v))) =~= entries_view(hs).push((k@, v@)));
}

/// Parse one request head from the bytes that hold it: the request line, then
/// header lines until the blank line that ends the head.  Bytes after that
/// blank line (a body) are ignored.
pub fn parse_request(head: &[u8]) -> (r: Result<Request, ParseError>)
    ensures
        match r {
            Ok(req) => spec_parse_request(head@) == Ok::<RequestModel, ParseErrorModel>(req@),
            Err(e) => spec_parse_request(head@) == Err::<RequestModel, ParseErrorModel>(e@),
        },
{
    let line_end = match find_byte(head, 0, LF) {
        Some(i) => i,
        None => {
            proof {
                assert forall|i: int| !is_first_at(head@, LF, i) by {}
                assert(!has_byte(head@, LF));
            }
            return Err(ParseError::MalformedRequestLine);
        },
    };
    proof {
        lemma_first_at_unique(head@, LF, line_end as int);
    }
    let line_raw_end = if line_end > 0 && head[line_end - 1] == CR {
        line_end - 1
    } else {
        line_end
    };
    let line = vstd::slice::slice_subrange(head, 0, line_raw_end);
    proof {
        assert(line@ =~= strip_cr(head@.subrange(0, line_end as int)));
    }
    let (method, path) = match parse_request_line(line) {
        Ok(mp) => mp,
        Err(e) => {
            return Err(e);
        },
    };
    let n = head.len();
    let ghost rest0: Seq<u8> = head@.subrange(line_end + 1, n as int);
    let mut pos: usize = line_end + 1;
    let mut headers: Vec<(Vec<u8>, Vec<u8>)> = Vec::new();
    loop
        invariant
            n == head@.len(),
            line_end < pos <= n,
            is_first_at(head@, LF, line_end as int),
            rest0 == head@.subrange(line_end + 1, n as int),
            spec_parse_request_line(strip_cr(head@.subrange(0, line_end as int)))
                == Ok::<(Method, Seq<u8>), ParseErrorModel>((method, path@)),
            spec_parse_headers(rest0, Map::empty()) == spec_parse_headers(
                head@.subrange(pos as int, n as int),
                headers_map_of(entries_view(headers@)),
            ),
        decreases n - pos,
    {
        let ghost rem = head@.subrange(pos as int, n as int);
        let ghost acc = headers_map_of(entries_view(headers@));
        match find_byte(head, pos, LF) {
            None => {
                proof {
                    assert(forall|j: int| 0 <= j < rem.len() ==> rem[j] != LF);
                    assert forall|i: int| !is_first_at(rem, LF, i) by {}
                    assert(!has_byte(rem, LF));
                }
                return Err(ParseError::UnexpectedEof);
            },
            Some(nl) => {
                let raw_end = if nl > pos && head[nl - 1] == CR {
                    nl - 1
                } else {
                    nl
                };
                let hline = vstd::slice::slice_subrange(head, pos, raw_end);
                proof {
                    let full = head@.subrange(pos as int, nl as int);
                    assert(hline@ =~= strip_cr(full));
                    assert(is_first_at(rem, LF, nl - pos)) by {
                        assert(rem[nl - pos] == head@[nl as int]);
                        assert(forall|j: int| 0 <= j < nl - pos ==> rem[j] == head@[pos + j]);
                    }
                    lemma_first_at_unique(rem, LF, nl - pos);
                    assert(rem.subrange(0, nl - pos) =~= full);
                    assert(rem.subrange(nl - pos + 1, rem.len() as int) =~= head@.subrange(
                        nl + 1,
                        n as int,
                    ));
                }
                if hline.len() == 0 {
                    let req = Request { method, path, headers };
                    proof {
                        assert(spec_parse_headers(rem, acc) == Ok::<
                            Map<Seq<u8>, Seq<u8>>,
                            ParseErrorModel,
                        >(acc));
                    }
                    return Ok(req);
                }
                match parse_header_line(hline) {
                    Err(e) => {
                        return Err(e);
                    },
                    Ok((k, v)) => {
                        proof {
                            lemma_entries_view_push(headers@, k, v);
                            lemma_headers_map_fold_push(
                                entries_view(headers@),
                                Map::empty(),
                                (k@, v@),
                            );
                        }
                        headers.push((k, v));
                        pos = nl + 1;
                    },
                }
            },
        }
    }
}

// ---------------------------------------------------------------------------
// The wire format, written rather than read: what a well-formed head looks
// like, and the laws that parsing recovers exactly what was written.
// ---------------------------------------------------------------------------

/// A token of the request line: non-empty, free of whitespace.
pub open spec fn valid_token(t: Seq<u8>) -> bool {
    t.len() > 0 && (forall|i: int| 0 <= i < t.len() ==> !is_ws(#[trigger] t[i]))
}

/// A header name as written on the wire: a token with no colon in it.
pub open spec fn valid_header_name(k: Seq<u8>) -> bool {
    valid_token(k) && (forall|i: int| 0 <= i < k.len() ==> #[trigger] k[i] != COLON)
}

/// A header value as written on the wire: non-empty, no surrounding
/// whitespace, and no line feed inside.
pub open spec fn valid_header_value(v: Seq<u8>) -> bool {
    &&& v.len() > 0
    &&& !is_ws(v[0])
    &&& !is_ws(v[v.len() - 1])
    &&& forall|i: int| 0 <= i < v.len() ==> #[trigger] v[i] != LF
}

pub open spec fn valid_headers(hs: Seq<(Seq<u8>, Seq<u8>)>) -> bool {
    forall|i: int|
        0 <= i < hs.len() ==> valid_header_name(#[trigger] hs[i].0) && valid_header_value(hs[i].1)
}

/// The line terminator the writer chose: a lone line feed, or a carriage
/// return before it.
pub open spec fn line_term(crlf: bool) -> Seq<u8> {
    if crlf {
        seq![CR, LF]
    } else {
        seq![LF]
    }
}

/// `<METHOD> <PATH>` and a terminator.
pub open spec fn render_request_line(method_tok: Seq<u8>, path: Seq<u8>, crlf: bool) -> Seq<u8> {
    method_tok + seq![SP] + path + line_term(crlf)
}

/// `<Name>: <value>` and a terminator.
pub open spec fn render_header(k: Seq<u8>, v: Seq<u8>, crlf: bool) -> Seq<u8> {
    k + seq![COLON, SP] + v + line_term(crlf)
}

pub open spec fn render_headers(hs: Seq<(Seq<u8>, Seq<u8>)>, crlf: bool) -> Seq<u8>
    decreases hs.len(),
{
    if hs.len() == 0 {
        Seq::empty()
    } else {
        render_header(hs.first().0, hs.first().1, crlf) + render_headers(hs.drop_first(), crlf)
    }
}

/// A whole head: request line, header lines, and the blank terminator line.
pub open spec fn render_head(
    method_tok: Seq<u8>,
    path: Seq<u8>,
    hs: Seq<(Seq<u8>, Seq<u8>)>,
    crlf: bool,
) -> Seq<u8> {
    render_request_line(method_tok, path, crlf) + render_headers(hs, crlf) + line_term(crlf)
}

/// A truncated head: the blank terminator line never arrives.
pub open spec fn render_head_unterminated(
    method_tok: Seq<u8>,
    path: Seq<u8>,
    hs: Seq<(Seq<u8>, Seq<u8>)>,
    crlf: bool,
) -> Seq<u8> {
    render_request_line(method_tok, path, crlf) + render_headers(hs, crlf)
}

/// A line free of line feeds, followed by its terminator, is read back as
/// exactly that line, and what follows the terminator is left to read.
proof fn lemma_split_line(line: Seq<u8>, crlf: bool, tail: Seq<u8>)
    requires
        forall|j: int| 0 <= j < line.len() ==> #[trigger] line[j] != LF,
        line.len() > 0 ==> line[line.len() - 1] != CR,
    ensures
        ({
            let s = line + line_term(crlf) + tail;
            let e = line.len() as int + line_term(crlf).len() as int - 1;
            &&& is_first_at(s, LF, e)
            &&& first_at(s, LF) == e
            &&& strip_cr(s.subrange(0, e)) == line
            &&& s.subrange(e + 1, s.len() as int) == tail
        }),
{
    let s = line + line_term(crlf) + tail;
    let e = line.len() as int + line_term(crlf).len() as int - 1;
    assert(s[e] == LF);
    assert forall|j: int| 0 <= j < e implies s[j] != LF by {
        if j < line.len() {
            assert(s[j] == line[j]);
        } else {
            assert(s[j] == CR);
        }
    }
    assert(is_first_at(s, LF, e));
    lemma_first_at_unique(s, LF, e);
    if crlf {
        assert(s.subrange(0, e) =~= line + seq![CR]);
        assert((line + seq![CR]).drop_last() =~= line);
    } else {
        assert(s.subrange(0, e) =~= line);
    }
    assert(s.subrange(e + 1, s.len() as int) =~= tail);
}

proof fn lemma_trim_ends_nonws(v: Seq<u8>)
    requires
        v.len() > 0,
        !is_ws(v[0]),
        !is_ws(v[v.len() - 1]),
    ensures
        trim(v) == v,
{
    assert(is_ws_end(v, 0, 0));
    lemma_ws_end_unique(v, 0, 0);
    assert(is_trim_end(v, v.len() as int));
    lemma_trim_end_unique(v, v.len() as int);
    assert(v.subrange(0, v.len() as int) =~= v);
}

proof fn lemma_trim_space_then(v: Seq<u8>)
    requires
        v.len() > 0,
        !is_ws(v[0]),
        !is_ws(v[v.len() - 1]),
    ensures
        trim(seq![SP] + v) == v,
{
    let s = seq![SP] + v;
    assert(s[0] == SP && is_ws(s[0]));
    assert(s[1] == v[0]);
    assert(is_ws_end(s, 0, 1));
    lemma_ws_end_unique(s, 0, 1);
    assert(s[s.len() - 1] == v[v.len() - 1]);
    assert(is_trim_end(s, s.len() as int));
    lemma_trim_end_unique(s, s.len() as int);
    assert(s.subrange(1, s.len() as int) =~= v);
}

proof fn lemma_parse_rendered_header_line(k: Seq<u8>, v: Seq<u8>)
    requires
        valid_header_name(k),
        valid_header_value(v),
    ensures
        spec_parse_header_line(k + seq![COLON, SP] + v) == Ok::<(Seq<u8>, Seq<u8>), ParseErrorModel>(
            (k, v),
        ),
{
    let line = k + seq![COLON, SP] + v;
    assert(line[k.len() as int] == COLON);
    assert forall|j: int| 0 <= j < k.len() implies line[j] != COLON by {
        assert(line[j] == k[j]);
    }
    assert(is_first_at(line, COLON, k.len() as int));
    lemma_first_at_unique(line, COLON, k.len() as int);
    assert(line.subrange(0, k.len() as int) =~= k);
    lemma_trim_ends_nonws(k);
    assert(line.subrange(k.len() as int + 1, line.len() as int) =~= seq![SP] + v);
    lemma_trim_space_then(v);
}

/// One header line at the front of the block hands its entry to the mapping
/// and leaves the rest of the block to read, whatever follows it.
proof fn lemma_parse_headers_step(
    k: Seq<u8>,
    v: Seq<u8>,
    crlf: bool,
    tail: Seq<u8>,
    acc: Map<Seq<u8>, Seq<u8>>,
)
    requires
        valid_header_name(k),
        valid_header_value(v),
    ensures
        spec_parse_headers(render_header(k, v, crlf) + tail, acc) == spec_parse_headers(
            tail,
            acc.insert(k, v),
        ),
{
    let line = k + seq![COLON, SP] + v;
    assert forall|j: int| 0 <= j < line.len() implies line[j] != LF by {
        if j < k.len() {
            assert(line[j] == k[j]);
            assert(!is_ws(k[j]));
        } else if j == k.len() {
            assert(line[j] == COLON);
        } else if j == k.len() as int + 1 {
            assert(line[j] == SP);
        } else {
            assert(line[j] == v[j - k.len() as int - 2]);
        }
    }
    assert(line[line.len() - 1] == v[v.len() - 1]);
    lemma_split_line(line, crlf, tail);
    let s = line + line_term(crlf) + tail;
    assert(render_header(k, v, crlf) + tail =~= s);
    lemma_parse_rendered_header_line(k, v);
}

proof fn lemma_valid_headers_rest(hs: Seq<(Seq<u8>, Seq<u8>)>)
    requires
        valid_headers(hs),
        hs.len() > 0,
    ensures
        valid_headers(hs.drop_first()),
{
    assert forall|i: int|
        0 <= i < hs.drop_first().len() implies valid_header_name(
        (#[trigger] hs.drop_first()[i]).0,
    ) && valid_header_value(hs.drop_first()[i].1) by {
        assert(hs.drop_first()[i] == hs[i + 1]);
    }
}

proof fn lemma_parse_rendered_headers(
    hs: Seq<(Seq<u8>, Seq<u8>)>,
    crlf: bool,
    acc: Map<Seq<u8>, Seq<u8>>,
)
    requires
        valid_headers(hs),
    ensures
        spec_parse_headers(render_headers(hs, crlf) + line_term(crlf), acc) == Ok::<
            Map<Seq<u8>, Seq<u8>>,
            ParseErrorModel,
        >(headers_map_fold(hs, acc)),
    decreases hs.len(),
{
    if hs.len() == 0 {
        let s = render_headers(hs, crlf) + line_term(crlf);
        lemma_split_line(Seq::empty(), crlf, Seq::empty());
        assert(s =~= Seq::empty() + line_term(crlf) + Seq::<u8>::empty());
    } else {
        let k = hs.first().0;
        let v = hs.first().1;
        assert(valid_header_name(k) && valid_header_value(v));
        let tail = render_headers(hs.drop_first(), crlf) + line_term(crlf);
        assert(render_headers(hs, crlf) + line_term(crlf) =~= render_header(k, v, crlf) + tail);
        lemma_parse_headers_step(k, v, crlf, tail, acc);
        lemma_valid_headers_rest(hs);
        lemma_parse_rendered_headers(hs.drop_first(), crlf, acc.insert(k, v));
    }
}

proof fn lemma_parse_headers_never_terminated(
    hs: Seq<(Seq<u8>, Seq<u8>)>,
    crlf: bool,
    acc: Map<Seq<u8>, Seq<u8>>,
)
    requires
        valid_headers(hs),
    ensures
        spec_parse_headers(render_headers(hs, crlf), acc) == Err::<
            Map<Seq<u8>, Seq<u8>>,
            ParseErrorModel,
        >(ParseErrorModel::UnexpectedEof),
    decreases hs.len(),
{
    if hs.len() == 0 {
        let s = render_headers(hs, crlf);
        assert forall|i: int| !is_first_at(s, LF, i) by {}
        assert(!has_byte(s, LF));
    } else {
        let k = hs.first().0;
        let v = hs.first().1;
        assert(valid_header_name(k) && valid_header_value(v));
        let tail = render_headers(hs.drop_first(), crlf);
        assert(render_headers(hs, crlf) =~= render_header(k, v, crlf) + tail);
        lemma_parse_headers_step(k, v, crlf, tail, acc);
        lemma_valid_headers_rest(hs);
        lemma_parse_headers_never_terminated(hs.drop_first(), crlf, acc.insert(k, v));
    }
}

proof fn lemma_parse_rendered_request_line(m: Seq<u8>, p: Seq<u8>)
    requires
        valid_token(m),
        valid_token(p),
    ensures
        spec_parse_request_line(m + seq![SP] + p) == (if m == method_get_bytes() {
            Ok::<(Method, Seq<u8>), ParseErrorModel>((Method::Get, p))
        } else {
            Err::<(Method, Seq<u8>), ParseErrorModel>(ParseErrorModel::UnsupportedMethod(m))
        }),
{
    let line = m + seq![SP] + p;
    assert(line[0] == m[0]);
    assert(is_ws_end(line, 0, 0));
    lemma_ws_end_unique(line, 0, 0);
    assert(line[m.len() as int] == SP);
    assert forall|j: int| 0 <= j < m.len() implies !is_ws(line[j]) by {
        assert(line[j] == m[j]);
    }
    assert(is_tok_end(line, 0, m.len() as int));
    lemma_tok_end_unique(line, 0, m.len() as int);
    assert(line.subrange(0, m.len() as int) =~= m);
    if m == method_get_bytes() {
        assert(line[m.len() as int + 1] == p[0]);
        assert(is_ws_end(line, m.len() as int, m.len() as int + 1));
        lemma_ws_end_unique(line, m.len() as int, m.len() as int + 1);
        assert forall|j: int| m.len() as int + 1 <= j < line.len() implies !is_ws(line[j]) by {
            assert(line[j] == p[j - m.len() as int - 1]);
        }
        assert(is_tok_end(line, m.len() as int + 1, line.len() as int));
        lemma_tok_end_unique(line, m.len() as int + 1, line.len() as int);
        assert(line.subrange(m.len() as int + 1, line.len() as int) =~= p);
    }
}

/// The request line at the front of a head, with either terminator, is read
/// as one line whose tokens are the method and the path.
proof fn lemma_split_request_line(m: Seq<u8>, p: Seq<u8>, crlf: bool, tail: Seq<u8>)
    requires
        valid_token(m),
        valid_token(p),
    ensures
        ({
            let head = render_request_line(m, p, crlf) + tail;
            let e = m.len() as int + 1 + p.len() as int + line_term(crlf).len() as int - 1;
            &&& is_first_at(head, LF, e)
            &&& first_at(head, LF) == e
            &&& strip_cr(head.subrange(0, e)) == m + seq![SP] + p
            &&& head.subrange(e + 1, head.len() as int) == tail
        }),
{
    let line = m + seq![SP] + p;
    assert forall|j: int| 0 <= j < line.len() implies line[j] != LF by {
        if j < m.len() {
            assert(line[j] == m[j]);
            assert(!is_ws(m[j]));
        } else if j == m.len() {
            assert(line[j] == SP);
        } else {
            assert(line[j] == p[j - m.len() as int - 1]);
        }
    }
    assert(line[line.len() - 1] == p[p.len() - 1]);
    lemma_split_line(line, crlf, tail);
    assert(render_request_line(m, p, crlf) + tail =~= line + line_term(crlf) + tail);
}

/// Round trip over the wire format, with either line terminator: a head
/// written with the supported verb, a path, and any list of header lines
/// parses back to exactly that method, that path, and the mapping the header
/// lines denote, a later occurrence of a name overwriting an earlier one.
pub proof fn lemma_head_round_trip(path: Seq<u8>, hs: Seq<(Seq<u8>, Seq<u8>)>, crlf: bool)
    requires
        valid_token(path),
        valid_headers(hs),
    ensures
        spec_parse_request(render_head(method_get_bytes(), path, hs, crlf)) == Ok::<
            RequestModel,
            ParseErrorModel,
        >(RequestModel { method: Method::Get, path, headers: headers_map_of(hs) }),
{
    let m = method_get_bytes();
    assert(valid_token(m));
    lemma_split_request_line(m, path, crlf, render_headers(hs, crlf) + line_term(crlf));
    assert(render_head(m, path, hs, crlf) =~= render_request_line(m, path, crlf) + (render_headers(
        hs,
        crlf,
    ) + line_term(crlf)));
    lemma_parse_rendered_request_line(m, path);
    lemma_parse_rendered_headers(hs, crlf, Map::empty());
}

/// An unsupported verb token never yields a request: the head is rejected
/// with that token, however well-formed the rest of it is.
pub proof fn lemma_unsupported_method_rejected(
    m: Seq<u8>,
    path: Seq<u8>,
    hs: Seq<(Seq<u8>, Seq<u8>)>,
    crlf: bool,
)
    requires
        valid_token(m),
        m != method_get_bytes(),
        valid_token(path),
        valid_headers(hs),
    ensures
        spec_parse_request(render_head(m, path, hs, crlf)) == Err::<RequestModel, ParseErrorModel>(
            ParseErrorModel::UnsupportedMethod(m),
        ),
{
    lemma_split_request_line(m, path, crlf, render_headers(hs, crlf) + line_term(crlf));
    assert(render_head(m, path, hs, crlf) =~= render_request_line(m, path, crlf) + (render_headers(
        hs,
        crlf,
    ) + line_term(crlf)));
    lemma_parse_rendered_request_line(m, path);
}

/// A head whose blank terminator line is missing is a stream-exhaustion
/// failure, never a request with a silently truncated header block.
pub proof fn lemma_missing_terminator_rejected(
    path: Seq<u8>,
    hs: Seq<(Seq<u8>, Seq<u8>)>,
    crlf: bool,
)
    requires
        valid_token(path),
        valid_headers(hs),
    ensures
        spec_parse_request(render_head_unterminated(method_get_bytes(), path, hs, crlf)) == Err::<
            RequestModel,
            ParseErrorModel,
        >(ParseErrorModel::UnexpectedEof),
{
    let m = method_get_bytes();
    assert(valid_token(m));
    lemma_split_request_line(m, path, crlf, render_headers(hs, crlf));
    lemma_parse_rendered_request_line(m, path);
    lemma_parse_headers_never_terminated(hs, crlf, Map::empty());
}

proof fn lemma_fold_absent(hs: Seq<(Seq<u8>, Seq<u8>)>, acc: Map<Seq<u8>, Seq<u8>>, k: Seq<u8>)
    requires
        forall|j: int| 0 <= j < hs.len() ==> (#[trigger] hs[j]).0 != k,
    ensures
        headers_map_fold(hs, acc).contains_key(k) == acc.contains_key(k),
        acc.contains_key(k) ==> headers_map_fold(hs, acc)[k] == acc[k],
    decreases hs.len(),
{
    if hs.len() > 0 {
        assert(hs.first() == hs[0]);
        assert(forall|j: int|
            0 <= j < hs.drop_first().len() ==> #[trigger] hs.drop_first()[j] == hs[j + 1]);
        lemma_fold_absent(hs.drop_first(), acc.insert(hs.first().0, hs.first().1), k);
    }
}

proof fn lemma_fold_last(hs: Seq<(Seq<u8>, Seq<u8>)>, acc: Map<Seq<u8>, Seq<u8>>, i: int)
    requires
        0 <= i < hs.len(),
        forall|j: int| i < j < hs.len() ==> (#[trigger] hs[j]).0 != hs[i].0,
    ensures
        headers_map_fold(hs, acc).contains_key(hs[i].0),
        headers_map_fold(hs, acc)[hs[i].0] == hs[i].1,
    decreases hs.len(),
{
    assert(hs.first() == hs[0]);
    assert(forall|j: int|
        0 <= j < hs.drop_first().len() ==> #[trigger] hs.drop_first()[j] == hs[j + 1]);
    if i == 0 {
        lemma_fold_absent(hs.drop_first(), acc.insert(hs[0].0, hs[0].1), hs[0].0);
    } else {
        lemma_fold_last(hs.drop_first(), acc.insert(hs.first().0, hs.first().1), i - 1);
    }
}

/// A repeated header name denotes the value of its last occurrence: in the
/// mapping a list of header lines denotes, a name whose occurrence at `i` is
/// its last carries the value written there.
pub proof fn lemma_last_write_wins(hs: Seq<(Seq<u8>, Seq<u8>)>, i: int)
    requires
        0 <= i < hs.len(),
        forall|j: int| i < j < hs.len() ==> (#[trigger] hs[j]).0 != hs[i].0,
    ensures
        headers_map_of(hs).contains_key(hs[i].0),
        headers_map_of(hs)[hs[i].0] == hs[i].1,
{
    lemma_fold_last(hs, Map::empty(), i);
}

fn bytes_eq(a: &[u8], b: &[u8]) -> (r: bool)
    ensures
        r == (a@ == b@),
{
    if a.len() != b.len() {
        proof {
            assert(a@ != b@);
        }
        return false;
    }
    let n = a.len();
    let mut i: usize = 0;
    while i < n
        invariant
            i <= n,
            n == a@.len() == b@.len(),
            forall|j: int| 0 <= j < i ==> a@[j] == b@[j],
        decreases n - i,
    {
        if a[i] != b[i] {
            proof {
                assert(a@ != b@);
            }
            return false;
        }
        i = i + 1;
    }
    proof {
        assert(a@ =~= b@);
    }
    true
}

impl Request {
    /// The value the header block gives to `name`: the last occurrence of the
    /// name wins; `None` when the head holds no such header.
    pub fn header_value<'a>(&'a self, name: &[u8]) -> (r: Option<&'a Vec<u8>>)
        ensures
            match r {
                Some(v) => self@.headers.contains_key(name@) && v@ == self@.headers[name@],
                None => !self@.headers.contains_key(name@),
            },
    {
        let n = self.headers.len();
        let mut i = n;
        while i > 0
            invariant
                i <= n,
                n == self.headers@.len(),
                forall|j: int| i <= j < n ==> (#[trigger] self.headers@[j]).0@ != name@,
            decreases i,
    {
            i = i - 1;
            if bytes_eq(self.headers[i].0.as_slice(), name) {
                proof {
                    let hs = entries_view(self.headers@);
                    assert(hs[i as int].0 == name@);
                    assert(forall|j: int| i < j < hs.len() ==> (#[trigger] hs[j]).0 != hs[i as int].0);
                    lemma_fold_last(hs, Map::empty(), i as int);
                }
                return Some(&self.headers[i].1);
            }
        }
        proof {
            let hs = entries_view(self.headers@);
            assert(forall|j: int| 0 <= j < hs.len() ==> (#[trigger] hs[j]).0 != name@);
            lemma_fold_absent(hs, Map::empty(), name@);
        }
        None
    }
}

} // verus!
