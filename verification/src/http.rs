use vstd::prelude::*;

verus! {

// ---------------------------------------------------------------------------
// Byte classification and small parsing helpers (specification level)
// ---------------------------------------------------------------------------

/// ASCII whitespace, as the request-line and header fields are split on it:
/// space, tab, line feed, vertical tab, form feed, carriage return.
pub open spec fn is_ws(b: u8) -> bool {
    b == 32 || (9 <= b && b <= 13)
}

/// ASCII decimal digit.
pub open spec fn is_digit(b: u8) -> bool {
    48 <= b && b <= 57
}

/// ASCII hexadecimal digit (either case).
pub open spec fn is_hex_digit(b: u8) -> bool {
    is_digit(b) || (97 <= b && b <= 102) || (65 <= b && b <= 70)
}

pub open spec fn hex_digit_value(b: u8) -> nat {
    if is_digit(b) {
        (b - 48) as nat
    } else if 97 <= b && b <= 102 {
        (b - 87) as nat
    } else {
        (b - 55) as nat
    }
}

/// ASCII lower-casing of a single byte.
pub open spec fn lower_byte(b: u8) -> u8 {
    if 65 <= b && b <= 90 {
        (b + 32) as u8
    } else {
        b
    }
}

/// ASCII lower-casing of a byte sequence; header names are normalized with it.
pub open spec fn lower(s: Seq<u8>) -> Seq<u8> {
    s.map_values(|b: u8| lower_byte(b))
}

/// Index of the first CRLF pair in `s`, or -1 when there is none.
pub open spec fn find_crlf(s: Seq<u8>) -> int
    decreases s.len(),
{
    if s.len() < 2 {
        -1
    } else if s[0] == 13 && s[1] == 10 {
        0
    } else {
        let r = find_crlf(s.skip(1));
        if r < 0 {
            -1
        } else {
            r + 1
        }
    }
}

/// A CRLF pair starts at index `i` of `s`.
pub open spec fn crlf_at(s: Seq<u8>, i: int) -> bool {
    0 <= i && i + 1 < s.len() && s[i] == 13 && s[i + 1] == 10
}

/// `find_crlf` returns the least index carrying a CRLF pair, or -1.
pub proof fn lemma_find_crlf(s: Seq<u8>)
    ensures
        find_crlf(s) >= 0 ==> crlf_at(s, find_crlf(s)) && (forall|j: int|
            0 <= j < find_crlf(s) ==> !crlf_at(s, j)),
        find_crlf(s) == -1 ==> forall|j: int| !crlf_at(s, j),
        find_crlf(s) == -1 || 0 <= find_crlf(s) <= s.len() - 2,
    decreases s.len(),
{
    if s.len() < 2 {
    } else if s[0] == 13 && s[1] == 10 {
    } else {
        lemma_find_crlf(s.skip(1));
        assert forall|j: int| crlf_at(s.skip(1), j - 1) == crlf_at(s, j) && j >= 1 implies true by {}
        if find_crlf(s.skip(1)) >= 0 {
            let r = find_crlf(s.skip(1));
            assert(s.skip(1)[r] == s[r + 1]);
            assert(s.skip(1)[r + 1] == s[r + 2]);
            assert(crlf_at(s, r + 1));
            assert forall|j: int| 0 <= j < r + 1 implies !crlf_at(s, j) by {
                if j >= 1 {
                    assert(s.skip(1)[j - 1] == s[j]);
                    assert(j < s.len() - 1 ==> s.skip(1)[j] == s[j + 1]);
                    assert(!crlf_at(s.skip(1), j - 1));
                }
            }
        } else {
            assert forall|j: int| !crlf_at(s, j) by {
                if 1 <= j && j + 1 < s.len() {
                    assert(s.skip(1)[j - 1] == s[j]);
                    assert(s.skip(1)[j] == s[j + 1]);
                    assert(!crlf_at(s.skip(1), j - 1));
                }
            }
        }
    }
}

/// Index of the first occurrence of byte `c` in `s`, or -1 when absent.
pub open spec fn find_byte(s: Seq<u8>, c: u8) -> int
    decreases s.len(),
{
    if s.len() == 0 {
        -1
    } else if s[0] == c {
        0
    } else {
        let r = find_byte(s.skip(1), c);
        if r < 0 {
            -1
        } else {
            r + 1
        }
    }
}

/// `find_byte` returns the least index holding `c`, or -1.
pub proof fn lemma_find_byte(s: Seq<u8>, c: u8)
    ensures
        find_byte(s, c) >= 0 ==> find_byte(s, c) < s.len() && s[find_byte(s, c)] == c && (
        forall|j: int| 0 <= j < find_byte(s, c) ==> s[j] != c),
        find_byte(s, c) == -1 ==> forall|j: int| 0 <= j < s.len() ==> s[j] != c,
    decreases s.len(),
{
    if s.len() == 0 {
    } else if s[0] == c {
    } else {
        lemma_find_byte(s.skip(1), c);
        let r = find_byte(s.skip(1), c);
        if r >= 0 {
            assert(s.skip(1)[r] == s[r + 1]);
            assert forall|j: int| 0 <= j < r + 1 implies s[j] != c by {
                if j >= 1 {
                    assert(s.skip(1)[j - 1] == s[j]);
                }
            }
        } else {
            assert forall|j: int| 0 <= j < s.len() implies s[j] != c by {
                if j >= 1 {
                    assert(s.skip(1)[j - 1] == s[j]);
                }
            }
        }
    }
}

/// Drop leading ASCII whitespace.
pub open spec fn trim_front(s: Seq<u8>) -> Seq<u8>
    decreases s.len(),
{
    if s.len() > 0 && is_ws(s[0]) {
        trim_front(s.skip(1))
    } else {
        s
    }
}

/// Drop trailing ASCII whitespace.
pub open spec fn trim_back(s: Seq<u8>) -> Seq<u8>
    decreases s.len(),
{
    if s.len() > 0 && is_ws(s.last()) {
        trim_back(s.drop_last())
    } else {
        s
    }
}

/// Drop whitespace at both ends, as header fields and chunk-size lines are.
pub open spec fn trim(s: Seq<u8>) -> Seq<u8> {
    trim_back(trim_front(s))
}

/// Value of a sequence of decimal digits, most significant first.
pub open spec fn dec_value(s: Seq<u8>) -> nat
    decreases s.len(),
{
    if s.len() == 0 {
        0
    } else {
        dec_value(s.drop_last()) * 10 + (s.last() - 48) as nat
    }
}

/// A well-formed decimal number: non-empty and all digits.
pub open spec fn is_dec(s: Seq<u8>) -> bool {
    s.len() > 0 && forall|i: int| 0 <= i < s.len() ==> is_digit(s[i])
}

/// Value of a sequence of hexadecimal digits, most significant first.
pub open spec fn hex_value(s: Seq<u8>) -> nat
    decreases s.len(),
{
    if s.len() == 0 {
        0
    } else {
        hex_value(s.drop_last()) * 16 + hex_digit_value(s.last())
    }
}

/// A well-formed hexadecimal number: non-empty and all hex digits.
pub open spec fn is_hex(s: Seq<u8>) -> bool {
    s.len() > 0 && forall|i: int| 0 <= i < s.len() ==> is_hex_digit(s[i])
}

// ---------------------------------------------------------------------------
// Whitespace tokenization of the request line
// ---------------------------------------------------------------------------

/// Length of the maximal non-whitespace prefix of `s`.
pub open spec fn token_len(s: Seq<u8>) -> int
    decreases s.len(),
{
    if s.len() == 0 || is_ws(s[0]) {
        0
    } else {
        1 + token_len(s.skip(1))
    }
}

pub proof fn lemma_token_len(s: Seq<u8>)
    ensures
        0 <= token_len(s) <= s.len(),
        s.len() > 0 && !is_ws(s[0]) ==> token_len(s) >= 1,
        forall|j: int| 0 <= j < token_len(s) ==> !is_ws(s[j]),
        token_len(s) < s.len() ==> is_ws(s[token_len(s)]),
    decreases s.len(),
{
    if s.len() > 0 && !is_ws(s[0]) {
        lemma_token_len(s.skip(1));
        assert forall|j: int| 0 <= j < token_len(s) implies !is_ws(s[j]) by {
            if j >= 1 {
                assert(s.skip(1)[j - 1] == s[j]);
            }
        }
        if token_len(s) < s.len() {
            assert(s.skip(1)[token_len(s) - 1] == s[token_len(s)]);
        }
    }
}

/// The whitespace-separated tokens of `s`, in order.
pub open spec fn split_ws(s: Seq<u8>) -> Seq<Seq<u8>>
    decreases s.len(),
{
    if s.len() == 0 {
        Seq::<Seq<u8>>::empty()
    } else if is_ws(s[0]) {
        split_ws(s.skip(1))
    } else {
        proof {
            lemma_token_len(s);
        }
        seq![s.take(token_len(s))] + split_ws(s.skip(token_len(s)))
    }
}

// ---------------------------------------------------------------------------
// Header lists: ordered, unique lower-cased keys, last write wins
// ---------------------------------------------------------------------------

/// First value bound to key `k`, if any. Keys are unique, so the first
/// binding is the only one.
pub open spec fn lookup(hs: Seq<(Seq<u8>, Seq<u8>)>, k: Seq<u8>) -> Option<Seq<u8>>
    decreases hs.len(),
{
    if hs.len() == 0 {
        None::<Seq<u8>>
    } else if hs[0].0 == k {
        Some(hs[0].1)
    } else {
        lookup(hs.skip(1), k)
    }
}

/// Bind `k` to `v`: replace the existing binding in place, else append.
pub open spec fn insert_header(hs: Seq<(Seq<u8>, Seq<u8>)>, k: Seq<u8>, v: Seq<u8>) -> Seq<
    (Seq<u8>, Seq<u8>),
>
    decreases hs.len(),
{
    if hs.len() == 0 {
        seq![(k, v)]
    } else if hs[0].0 == k {
        seq![(k, v)] + hs.skip(1)
    } else {
        seq![hs[0]] + insert_header(hs.skip(1), k, v)
    }
}

// ---------------------------------------------------------------------------
// Wire tokens the machine compares against
// ---------------------------------------------------------------------------

/// The bytes of `"GET"`.
pub open spec fn tok_get() -> Seq<u8> {
    seq![71u8, 69u8, 84u8]
}

/// The bytes of `"POST"`.
pub open spec fn tok_post() -> Seq<u8> {
    seq![80u8, 79u8, 83u8, 84u8]
}

/// The bytes of `"DELETE"`.
pub open spec fn tok_delete() -> Seq<u8> {
    seq![68u8, 69u8, 76u8, 69u8, 84u8, 69u8]
}

/// The bytes of `"transfer-encoding"`.
pub open spec fn key_transfer_encoding() -> Seq<u8> {
    seq![116u8, 114u8, 97u8, 110u8, 115u8, 102u8, 101u8, 114u8, 45u8, 101u8, 110u8, 99u8, 111u8, 100u8, 105u8, 110u8, 103u8]
}

/// The bytes of `"content-length"`.
pub open spec fn key_content_length() -> Seq<u8> {
    seq![99u8, 111u8, 110u8, 116u8, 101u8, 110u8, 116u8, 45u8, 108u8, 101u8, 110u8, 103u8, 116u8, 104u8]
}

/// The bytes of `"chunked"`.
pub open spec fn val_chunked() -> Seq<u8> {
    seq![99u8, 104u8, 117u8, 110u8, 107u8, 101u8, 100u8]
}

// ---------------------------------------------------------------------------
// Data model
// ---------------------------------------------------------------------------

/// HTTP request method. Anything other than the three supported
/// verbs carries its raw token bytes.
pub enum Method {
    GET,
    POST,
    DELETE,
    OTHER(Vec<u8>),
}

pub ghost enum MethodV {
    GET,
    POST,
    DELETE,
    OTHER(Seq<u8>),
}

impl View for Method {
    type V = MethodV;

    open spec fn view(&self) -> MethodV {
        match self {
            Method::GET => MethodV::GET,
            Method::POST => MethodV::POST,
            Method::DELETE => MethodV::DELETE,
            Method::OTHER(t) => MethodV::OTHER(t@),
        }
    }
}

/// The method named by a request-line token.
pub open spec fn method_of(t: Seq<u8>) -> MethodV {
    if t == tok_get() {
        MethodV::GET
    } else if t == tok_post() {
        MethodV::POST
    } else if t == tok_delete() {
        MethodV::DELETE
    } else {
        MethodV::OTHER(t)
    }
}

/// A parsed (possibly still in progress) HTTP request. Header names are
/// stored lower-cased; duplicate names keep the last value written.
pub struct Request {
    pub method: Method,
    pub path: Vec<u8>,
    pub version: Vec<u8>,
    pub headers: Vec<(Vec<u8>, Vec<u8>)>,
    pub body: Vec<u8>,
}

#[verifier::ext_equal]
pub ghost struct RequestV {
    pub method: MethodV,
    pub path: Seq<u8>,
    pub version: Seq<u8>,
    pub headers: Seq<(Seq<u8>, Seq<u8>)>,
    pub body: Seq<u8>,
}

/// The abstract header list of an executable header vector.
pub open spec fn headers_view(hs: Seq<(Vec<u8>, Vec<u8>)>) -> Seq<(Seq<u8>, Seq<u8>)> {
    hs.map_values(|p: (Vec<u8>, Vec<u8>)| (p.0@, p.1@))
}

impl View for Request {
    type V = RequestV;

    open spec fn view(&self) -> RequestV {
        RequestV {
            method: self.method@,
            path: self.path@,
            version: self.version@,
            headers: headers_view(self.headers@),
            body: self.body@,
        }
    }
}

impl Request {
    /// An empty request: method GET, no path, no headers, no body.
    pub fn new() -> (r: Request)
        ensures
            r@ == (RequestV {
                method: MethodV::GET,
                path: Seq::<u8>::empty(),
                version: Seq::<u8>::empty(),
                headers: Seq::<(Seq<u8>, Seq<u8>)>::empty(),
                body: Seq::<u8>::empty(),
            }),
    {
        let r = Request {
            method: Method::GET,
            path: Vec::new(),
            version: Vec::new(),
            headers: Vec::new(),
            body: Vec::new(),
        };
        proof {
            assert(headers_view(r.headers@) =~= Seq::<(Seq<u8>, Seq<u8>)>::empty());
        }
        r
    }
}

/// The parser's control state.
#[derive(PartialEq, Eq, Structural, Clone, Copy, Debug)]
pub enum ParseState {
    RequestLine,
    Headers,
    Body,
    ChunkSize,
    ChunkData,
    ChunkTrailer,
    Done,
    Error,
}

// ---------------------------------------------------------------------------
// The specification state machine
// ---------------------------------------------------------------------------

/// Full abstract parser state: control state, request built so far,
/// unconsumed bytes, and the pending chunk size.
#[verifier::ext_equal]
pub ghost struct PView {
    pub state: ParseState,
    pub req: RequestV,
    pub buffer: Seq<u8>,
    pub chunk: nat,
}

/// Ranks the control states so that every transition that consumes no
/// bytes strictly lowers the rank.
pub open spec fn rank(s: ParseState) -> nat {
    match s {
        ParseState::Done => 0,
        ParseState::Error => 0,
        _ => 1,
    }
}

/// The body length the machine waits for in state `Body`: the value of the
/// `content-length` header, or 0 when absent or malformed.
pub open spec fn body_len(p: PView) -> nat {
    match lookup(p.req.headers, key_content_length()) {
        Some(v) => if is_dec(v) && dec_value(v) <= usize::MAX {
            dec_value(v)
        } else {
            0
        },
        None => 0,
    }
}

/// The machine can take no step until more bytes arrive.
pub open spec fn blocked(p: PView) -> bool {
    match p.state {
        ParseState::RequestLine => find_crlf(p.buffer) == -1,
        ParseState::Headers => find_crlf(p.buffer) == -1,
        ParseState::Body => p.buffer.len() < body_len(p),
        ParseState::ChunkSize => find_crlf(p.buffer) == -1,
        ParseState::ChunkData => p.buffer.len() < p.chunk + 2,
        ParseState::ChunkTrailer => find_crlf(p.buffer) == -1,
        ParseState::Done => true,
        ParseState::Error => true,
    }
}

/// One transition of the machine; meaningful only when not blocked.
pub open spec fn step(p: PView) -> PView
    recommends
        !blocked(p),
{
    match p.state {
        ParseState::RequestLine => {
            let pos = find_crlf(p.buffer);
            let toks = split_ws(p.buffer.take(pos));
            if toks.len() == 3 {
                PView {
                    state: ParseState::Headers,
                    req: RequestV {
                        method: method_of(toks[0]),
                        path: toks[1],
                        version: toks[2],
                        ..p.req
                    },
                    buffer: p.buffer.skip(pos + 2),
                    ..p
                }
            } else {
                PView { state: ParseState::Error, ..p }
            }
        },
        ParseState::Headers => {
            let pos = find_crlf(p.buffer);
            if pos == 0 {
                let rest = p.buffer.skip(2);
                match lookup(p.req.headers, key_transfer_encoding()) {
                    Some(te) => if lower(te) == val_chunked() {
                        PView { state: ParseState::ChunkSize, buffer: rest, ..p }
                    } else {
                        PView { state: ParseState::Error, buffer: rest, ..p }
                    },
                    None => match lookup(p.req.headers, key_content_length()) {
                        Some(v) => if is_dec(v) && dec_value(v) <= usize::MAX {
                            if dec_value(v) == 0 {
                                PView { state: ParseState::Done, buffer: rest, ..p }
                            } else {
                                PView { state: ParseState::Body, buffer: rest, ..p }
                            }
                        } else {
                            PView { state: ParseState::Error, buffer: rest, ..p }
                        },
                        None => PView { state: ParseState::Done, buffer: rest, ..p },
                    },
                }
            } else {
                let line = p.buffer.take(pos);
                let colon = find_byte(line, 58);
                let hs = if colon >= 0 {
                    insert_header(
                        p.req.headers,
                        lower(trim(line.take(colon))),
                        trim(line.skip(colon + 1)),
                    )
                } else {
                    p.req.headers
                };
                PView {
                    req: RequestV { headers: hs, ..p.req },
                    buffer: p.buffer.skip(pos + 2),
                    ..p
                }
            }
        },
        ParseState::Body => {
            let cl = body_len(p) as int;
            PView {
                state: ParseState::Done,
                req: RequestV { body: p.buffer.take(cl), ..p.req },
                buffer: p.buffer.skip(cl),
                ..p
            }
        },
        ParseState::ChunkSize => {
            let pos = find_crlf(p.buffer);
            let line = trim(p.buffer.take(pos));
            if is_hex(line) && hex_value(line) <= usize::MAX {
                let size = hex_value(line);
                let rest = p.buffer.skip(pos + 2);
                if size == 0 {
                    PView { state: ParseState::ChunkTrailer, buffer: rest, chunk: 0, ..p }
                } else {
                    PView { state: ParseState::ChunkData, buffer: rest, chunk: size, ..p }
                }
            } else {
                PView { state: ParseState::Error, ..p }
            }
        },
        ParseState::ChunkData => PView {
            state: ParseState::ChunkSize,
            req: RequestV { body: p.req.body + p.buffer.take(p.chunk as int), ..p.req },
            buffer: p.buffer.skip(p.chunk + 2int),
            ..p
        },
        ParseState::ChunkTrailer => {
            let pos = find_crlf(p.buffer);
            if pos == 0 {
                PView { state: ParseState::Done, buffer: p.buffer.skip(2), ..p }
            } else {
                PView { buffer: p.buffer.skip(pos + 2), ..p }
            }
        },
        ParseState::Done => p,
        ParseState::Error => p,
    }
}

/// A step never grows the buffer, and a step that keeps the buffer
/// lowers the control-state rank.
pub proof fn lemma_step_measure(p: PView)
    requires
        !blocked(p),
    ensures
        step(p).buffer.len() < p.buffer.len() || (step(p).buffer.len() == p.buffer.len() && rank(
            step(p).state,
        ) < rank(p.state)),
{
    match p.state {
        ParseState::RequestLine | ParseState::Headers | ParseState::ChunkSize
            | ParseState::ChunkTrailer => {
            lemma_find_crlf(p.buffer);
        },
        _ => {},
    }
}

/// Run the machine until it blocks.
pub open spec fn run(p: PView) -> PView
    decreases p.buffer.len(), rank(p.state),
{
    if blocked(p) {
        p
    } else {
        proof {
            lemma_step_measure(p);
        }
        run(step(p))
    }
}

/// `p` with `d` appended to its unconsumed input.
pub open spec fn ext(p: PView, d: Seq<u8>) -> PView {
    PView { buffer: p.buffer + d, ..p }
}

/// The abstract effect of feeding `d` to the parser: append, then run
/// until more input is needed.
pub open spec fn spec_feed(p: PView, d: Seq<u8>) -> PView {
    run(ext(p, d))
}

// ---------------------------------------------------------------------------
// The executable parser
// ---------------------------------------------------------------------------

/// Incremental HTTP/1.1 request parser. `parse` consumes as much of the
/// input as a single pass of the machine allows; errors are observed by
/// inspecting `state` afterwards.
pub struct Parser {
    pub state: ParseState,
    pub request: Request,
    buffer: Vec<u8>,
    chunk_size: usize,
}

impl View for Parser {
    type V = PView;

    closed spec fn view(&self) -> PView {
        PView {
            state: self.state,
            req: self.request@,
            buffer: self.buffer@,
            chunk: self.chunk_size as nat,
        }
    }
}

/// The abstract state of a parser that has seen no input.
pub open spec fn initial_pview() -> PView {
    PView {
        state: ParseState::RequestLine,
        req: RequestV {
            method: MethodV::GET,
            path: Seq::<u8>::empty(),
            version: Seq::<u8>::empty(),
            headers: Seq::<(Seq<u8>, Seq<u8>)>::empty(),
            body: Seq::<u8>::empty(),
        },
        buffer: Seq::<u8>::empty(),
        chunk: 0,
    }
}

impl Parser {
    /// A fresh parser, awaiting the request line.
    pub fn new() -> (r: Parser)
        ensures
            r@ == initial_pview(),
    {
        Parser {
            state: ParseState::RequestLine,
            request: Request::new(),
            buffer: Vec::new(),
            chunk_size: 0,
        }
    }
}

// ---------------------------------------------------------------------------
// Executable helpers over byte vectors
// ---------------------------------------------------------------------------

/// Append a byte slice to a vector.
pub fn append_bytes(v: &mut Vec<u8>, d: &[u8])
    ensures
        final(v)@ == old(v)@ + d@,
{
    let mut i: usize = 0;
    while i < d.len()
        invariant
            0 <= i <= d.len(),
            v@ == old(v)@ + d@.take(i as int),
        decreases d.len() - i,
    {
        v.push(d[i]);
        proof {
            assert(old(v)@ + d@.take(i as int) + seq![d@[i as int]] =~= old(v)@ + d@.take(
                i + 1,
            ));
        }
        i += 1;
    }
    proof {
        assert(d@.take(d.len() as int) =~= d@);
    }
}

/// Copy of `v[i..j]`.
pub fn subvec(v: &Vec<u8>, i: usize, j: usize) -> (r: Vec<u8>)
    requires
        i <= j <= v.len(),
    ensures
        r@ == v@.subrange(i as int, j as int),
{
    let s: &[u8] = &v[i..j];
    vstd::slice::slice_to_vec(s)
}

/// Drop the first `k` bytes of `v`.
pub fn drain_front(v: &mut Vec<u8>, k: usize)
    requires
        k <= old(v).len(),
    ensures
        final(v)@ == old(v)@.skip(k as int),
{
    let tail = v.split_off(k);
    *v = tail;
    proof {
        assert(v@ =~= old(v)@.skip(k as int));
    }
}

/// Whether `b` is ASCII whitespace.
fn ws(b: u8) -> (r: bool)
    ensures
        r == is_ws(b),
{
    b == 32 || (9 <= b && b <= 13)
}

/// Find the first CRLF pair in `v`.
fn scan_crlf(v: &Vec<u8>) -> (r: Option<usize>)
    ensures
        match r {
            Some(i) => find_crlf(v@) == i && i + 2 <= v.len(),
            None => find_crlf(v@) == -1,
        },
{
    proof {
        lemma_find_crlf(v@);
    }
    if v.len() < 2 {
        return None;
    }
    let mut i: usize = 0;
    while i < v.len() - 1
        invariant
            v.len() >= 2,
            0 <= i <= v.len(),
            forall|j: int| 0 <= j < i ==> !crlf_at(v@, j),
        decreases v.len() - i,
    {
        if v[i] == 13 && v[i + 1] == 10 {
            proof {
                lemma_find_crlf(v@);
                assert(crlf_at(v@, i as int));
                let f = find_crlf(v@);
                if f == -1 {
                    assert(!crlf_at(v@, i as int));
                }
                if 0 <= f < i {
                    assert(!crlf_at(v@, f));
                }
                if f > i {
                    assert(!crlf_at(v@, i as int));
                }
            }
            return Some(i);
        }
        i += 1;
    }
    proof {
        assert(forall|j: int| !crlf_at(v@, j));
    }
    None
}

/// Find the first occurrence of `c` in `v`.
fn scan_byte(v: &Vec<u8>, c: u8) -> (r: Option<usize>)
    ensures
        match r {
            Some(i) => find_byte(v@, c) == i && i < v.len(),
            None => find_byte(v@, c) == -1,
        },
{
    proof {
        lemma_find_byte(v@, c);
    }
    let mut i: usize = 0;
    while i < v.len()
        invariant
            0 <= i <= v.len(),
            forall|j: int| 0 <= j < i ==> v@[j] != c,
        decreases v.len() - i,
    {
        if v[i] == c {
            proof {
                lemma_find_byte(v@, c);
                let f = find_byte(v@, c);
                if 0 <= f < i {
                    assert(v@[f] != c);
                }
            }
            return Some(i);
        }
        i += 1;
    }
    None
}

/// Lower-case a byte vector.
fn to_lower_vec(v: &Vec<u8>) -> (r: Vec<u8>)
    ensures
        r@ == lower(v@),
{
    let mut r: Vec<u8> = Vec::new();
    let mut i: usize = 0;
    while i < v.len()
        invariant
            0 <= i <= v.len(),
            r@.len() == i,
            forall|j: int| 0 <= j < i ==> r@[j] == lower_byte(v@[j]),
        decreases v.len() - i,
    {
        let b = v[i];
        if 65 <= b && b <= 90 {
            r.push(b + 32);
        } else {
            r.push(b);
        }
        i += 1;
    }
    proof {
        assert(r@ =~= lower(v@));
    }
    r
}

/// Trim ASCII whitespace from both ends of `v`.
fn trim_vec(v: &Vec<u8>) -> (r: Vec<u8>)
    ensures
        r@ == trim(v@),
{
    proof {
        assert(v@.skip(0) =~= v@);
    }
    let mut a: usize = 0;
    while a < v.len() && ws(v[a])
        invariant
            0 <= a <= v.len(),
            trim_front(v@) == trim_front(v@.skip(a as int)),
        decreases v.len() - a,
    {
        proof {
            assert(v@.skip(a as int)[0] == v@[a as int]);
            assert(v@.skip(a as int).skip(1) =~= v@.skip(a + 1));
        }
        a += 1;
    }
    proof {
        assert(trim_front(v@) == v@.skip(a as int));
    }
    let mut b: usize = v.len();
    while b > a && ws(v[b - 1])
        invariant
            a <= b <= v.len(),
            trim_back(v@.skip(a as int)) == trim_back(v@.subrange(a as int, b as int)),
        decreases b,
    {
        proof {
            assert(v@.skip(a as int) =~= v@.subrange(a as int, v.len() as int));
            let u = v@.subrange(a as int, b as int);
            assert(u.last() == v@[b - 1]);
            assert(u.drop_last() =~= v@.subrange(a as int, b - 1));
        }
        b -= 1;
    }
    proof {
        assert(v@.skip(a as int) =~= v@.subrange(a as int, v.len() as int));
        assert(trim_back(v@.subrange(a as int, b as int)) == v@.subrange(a as int, b as int));
    }
    subvec(v, a, b)
}

/// `dec_value` of a prefix never exceeds that of the whole digit string.
proof fn lemma_dec_prefix(s: Seq<u8>, k: int)
    requires
        0 <= k <= s.len(),
        forall|i: int| 0 <= i < s.len() ==> is_digit(s[i]),
    ensures
        dec_value(s.take(k)) <= dec_value(s),
    decreases s.len(),
{
    if k < s.len() {
        assert(s.drop_last().take(k) =~= s.take(k));
        lemma_dec_prefix(s.drop_last(), k);
    } else {
        assert(s.take(k) =~= s);
    }
}

/// `hex_value` of a prefix never exceeds that of the whole digit string.
proof fn lemma_hex_prefix(s: Seq<u8>, k: int)
    requires
        0 <= k <= s.len(),
        forall|i: int| 0 <= i < s.len() ==> is_hex_digit(s[i]),
    ensures
        hex_value(s.take(k)) <= hex_value(s),
    decreases s.len(),
{
    if k < s.len() {
        assert(s.drop_last().take(k) =~= s.take(k));
        lemma_hex_prefix(s.drop_last(), k);
    } else {
        assert(s.take(k) =~= s);
    }
}

/// Parse `v` as a non-negative decimal integer, as `content-length` values
/// are; `None` when malformed or out of range.
fn parse_dec(v: &Vec<u8>) -> (r: Option<usize>)
    ensures
        match r {
            Some(n) => is_dec(v@) && dec_value(v@) == n,
            None => !(is_dec(v@) && dec_value(v@) <= usize::MAX),
        },
{
    if v.len() == 0 {
        return None;
    }
    let mut acc: usize = 0;
    let mut i: usize = 0;
    while i < v.len()
        invariant
            0 <= i <= v.len(),
            v.len() > 0,
            forall|j: int| 0 <= j < i ==> is_digit(v@[j]),
            acc == dec_value(v@.take(i as int)),
        decreases v.len() - i,
    {
        let b = v[i];
        if !(48 <= b && b <= 57) {
            return None;
        }
        let wide: u128 = (acc as u128) * 10 + ((b - 48) as u128);
        proof {
            assert(v@.take(i + 1).drop_last() =~= v@.take(i as int));
            assert(v@.take(i + 1).last() == v@[i as int]);
        }
        if wide > usize::MAX as u128 {
            proof {
                if is_dec(v@) {
                    lemma_dec_prefix(v@, i + 1);
                }
            }
            return None;
        }
        acc = wide as usize;
        i += 1;
    }
    proof {
        assert(v@.take(v.len() as int) =~= v@);
    }
    Some(acc)
}

/// Parse `v` as a hexadecimal integer, as chunk-size lines are;
/// `None` when malformed or out of range.
fn parse_hex(v: &Vec<u8>) -> (r: Option<usize>)
    ensures
        match r {
            Some(n) => is_hex(v@) && hex_value(v@) == n,
            None => !(is_hex(v@) && hex_value(v@) <= usize::MAX),
        },
{
    if v.len() == 0 {
        return None;
    }
    let mut acc: usize = 0;
    let mut i: usize = 0;
    while i < v.len()
        invariant
            0 <= i <= v.len(),
            v.len() > 0,
            forall|j: int| 0 <= j < i ==> is_hex_digit(v@[j]),
            acc == hex_value(v@.take(i as int)),
        decreases v.len() - i,
    {
        let b = v[i];
        let d: u8 = if 48 <= b && b <= 57 {
            b - 48
        } else if 97 <= b && b <= 102 {
            b - 87
        } else if 65 <= b && b <= 70 {
            b - 55
        } else {
            return None;
        };
        let wide: u128 = (acc as u128) * 16 + (d as u128);
        proof {
            assert(v@.take(i + 1).drop_last() =~= v@.take(i as int));
            assert(v@.take(i + 1).last() == v@[i as int]);
        }
        if wide > usize::MAX as u128 {
            proof {
                if is_hex(v@) {
                    lemma_hex_prefix(v@, i + 1);
                }
            }
            return None;
        }
        acc = wide as usize;
        i += 1;
    }
    proof {
        assert(v@.take(v.len() as int) =~= v@);
    }
    Some(acc)
}

/// Whether two byte vectors hold the same bytes.
pub fn bytes_eq(a: &Vec<u8>, b: &Vec<u8>) -> (r: bool)
    ensures
        r == (a@ == b@),
{
    if a.len() != b.len() {
        proof {
            assert(a@.len() != b@.len());
        }
        return false;
    }
    let mut i: usize = 0;
    while i < a.len()
        invariant
            0 <= i <= a.len(),
            a.len() == b.len(),
            forall|j: int| 0 <= j < i ==> a@[j] == b@[j],
        decreases a.len() - i,
    {
        if a[i] != b[i] {
            return false;
        }
        i += 1;
    }
    proof {
        assert(a@ =~= b@);
    }
    true
}

/// The bytes of `"transfer-encoding"`, as a vector.
fn make_key_transfer_encoding() -> (r: Vec<u8>)
    ensures
        r@ == key_transfer_encoding(),
{
    let a: [u8; 17] = [116u8, 114u8, 97u8, 110u8, 115u8, 102u8, 101u8, 114u8, 45u8, 101u8, 110u8, 99u8, 111u8, 100u8, 105u8, 110u8, 103u8];
    let v = vstd::slice::slice_to_vec(a.as_slice());
    proof {
        assert(v@ =~= key_transfer_encoding());
    }
    v
}

/// The bytes of `"content-length"`, as a vector.
pub fn make_key_content_length() -> (r: Vec<u8>)
    ensures
        r@ == key_content_length(),
{
    let a: [u8; 14] = [99u8, 111u8, 110u8, 116u8, 101u8, 110u8, 116u8, 45u8, 108u8, 101u8, 110u8, 103u8, 116u8, 104u8];
    let v = vstd::slice::slice_to_vec(a.as_slice());
    proof {
        assert(v@ =~= key_content_length());
    }
    v
}

/// The bytes of `"chunked"`, as a vector.
fn make_val_chunked() -> (r: Vec<u8>)
    ensures
        r@ == val_chunked(),
{
    let a: [u8; 7] = [99u8, 104u8, 117u8, 110u8, 107u8, 101u8, 100u8];
    let v = vstd::slice::slice_to_vec(a.as_slice());
    proof {
        assert(v@ =~= val_chunked());
    }
    v
}

impl Method {
    /// The method named by a request-line token, collapsing the three
    /// supported verbs to their named variants.
    pub fn from(token: Vec<u8>) -> (m: Method)
        ensures
            m@ == method_of(token@),
    {
        let a3: [u8; 3] = [71u8, 69u8, 84u8];
        let g = vstd::slice::slice_to_vec(a3.as_slice());
        proof {
            assert(g@ =~= tok_get());
        }
        if bytes_eq(&token, &g) {
            return Method::GET;
        }
        let a4: [u8; 4] = [80u8, 79u8, 83u8, 84u8];
        let p = vstd::slice::slice_to_vec(a4.as_slice());
        proof {
            assert(p@ =~= tok_post());
        }
        if bytes_eq(&token, &p) {
            return Method::POST;
        }
        let a6: [u8; 6] = [68u8, 69u8, 76u8, 69u8, 84u8, 69u8];
        let d = vstd::slice::slice_to_vec(a6.as_slice());
        proof {
            assert(d@ =~= tok_delete());
        }
        if bytes_eq(&token, &d) {
            return Method::DELETE;
        }
        Method::OTHER(token)
    }
}

// ---------------------------------------------------------------------------
// Executable header list operations
// ---------------------------------------------------------------------------

proof fn lemma_lookup_found(hs: Seq<(Seq<u8>, Seq<u8>)>, k: Seq<u8>, i: int)
    requires
        0 <= i < hs.len(),
        hs[i].0 == k,
        forall|j: int| 0 <= j < i ==> hs[j].0 != k,
    ensures
        lookup(hs, k) == Some(hs[i].1),
    decreases i,
{
    if i > 0 {
        assert(forall|j: int| 0 <= j < hs.len() - 1 ==> hs.skip(1)[j] == hs[j + 1]);
        lemma_lookup_found(hs.skip(1), k, i - 1);
    }
}

proof fn lemma_lookup_none(hs: Seq<(Seq<u8>, Seq<u8>)>, k: Seq<u8>)
    requires
        forall|j: int| 0 <= j < hs.len() ==> hs[j].0 != k,
    ensures
        lookup(hs, k) is None,
    decreases hs.len(),
{
    if hs.len() > 0 {
        assert(forall|j: int| 0 <= j < hs.len() - 1 ==> hs.skip(1)[j] == hs[j + 1]);
        lemma_lookup_none(hs.skip(1), k);
    }
}

proof fn lemma_insert_found(hs: Seq<(Seq<u8>, Seq<u8>)>, k: Seq<u8>, v: Seq<u8>, i: int)
    requires
        0 <= i < hs.len(),
        hs[i].0 == k,
        forall|j: int| 0 <= j < i ==> hs[j].0 != k,
    ensures
        insert_header(hs, k, v) == hs.update(i, (k, v)),
    decreases i,
{
    if i == 0 {
        assert(seq![(k, v)] + hs.skip(1) =~= hs.update(0, (k, v)));
    } else {
        assert(forall|j: int| 0 <= j < hs.len() - 1 ==> hs.skip(1)[j] == hs[j + 1]);
        lemma_insert_found(hs.skip(1), k, v, i - 1);
        assert(seq![hs[0]] + hs.skip(1).update(i - 1, (k, v)) =~= hs.update(i, (k, v)));
    }
}

proof fn lemma_insert_none(hs: Seq<(Seq<u8>, Seq<u8>)>, k: Seq<u8>, v: Seq<u8>)
    requires
        forall|j: int| 0 <= j < hs.len() ==> hs[j].0 != k,
    ensures
        insert_header(hs, k, v) == hs.push((k, v)),
    decreases hs.len(),
{
    if hs.len() == 0 {
        assert(seq![(k, v)] =~= hs.push((k, v)));
    } else {
        assert(forall|j: int| 0 <= j < hs.len() - 1 ==> hs.skip(1)[j] == hs[j + 1]);
        lemma_insert_none(hs.skip(1), k, v);
        assert(seq![hs[0]] + hs.skip(1).push((k, v)) =~= hs.push((k, v)));
    }
}

/// Reference to the value bound to key `k`, if any.
pub fn lookup_vec<'a>(hs: &'a Vec<(Vec<u8>, Vec<u8>)>, k: &Vec<u8>) -> (r: Option<&'a Vec<u8>>)
    ensures
        match r {
            Some(v) => lookup(headers_view(hs@), k@) == Some(v@),
            None => lookup(headers_view(hs@), k@) is None,
        },
{
    let mut i: usize = 0;
    while i < hs.len()
        invariant
            0 <= i <= hs.len(),
            forall|j: int| 0 <= j < i ==> headers_view(hs@)[j].0 != k@,
        decreases hs.len() - i,
    {
        if bytes_eq(&hs[i].0, k) {
            proof {
                lemma_lookup_found(headers_view(hs@), k@, i as int);
            }
            return Some(&hs[i].1);
        }
        i += 1;
    }
    proof {
        lemma_lookup_none(headers_view(hs@), k@);
    }
    None
}

/// Bind `k` to `v` in the header vector: replace in place, else append.
fn insert_header_vec(hs: &mut Vec<(Vec<u8>, Vec<u8>)>, k: Vec<u8>, v: Vec<u8>)
    ensures
        headers_view(final(hs)@) == insert_header(headers_view(old(hs)@), k@, v@),
{
    let mut i: usize = 0;
    let n = hs.len();
    while i < n
        invariant
            0 <= i <= n,
            n == hs.len(),
            hs@ == old(hs)@,
            forall|j: int| 0 <= j < i ==> headers_view(hs@)[j].0 != k@,
        decreases n - i,
    {
        if bytes_eq(&hs[i].0, &k) {
            proof {
                lemma_insert_found(headers_view(hs@), k@, v@, i as int);
            }
            let ghost hs0 = hs@;
            hs.remove(i);
            hs.insert(i, (k, v));
            proof {
                assert(hs@ =~= hs0.update(i as int, (k, v)));
                assert(headers_view(hs@) =~~= headers_view(hs0).update(i as int, (k@, v@)));
            }
            return;
        }
        i += 1;
    }
    proof {
        lemma_insert_none(headers_view(hs@), k@, v@);
    }
    let ghost hs0 = hs@;
    hs.push((k, v));
    proof {
        assert(headers_view(hs@) =~~= headers_view(hs0).push((k@, v@)));
    }
}

/// A scan that stops at the first whitespace byte measures the token.
proof fn lemma_token_len_exact(s: Seq<u8>, k: int)
    requires
        0 <= k <= s.len(),
        forall|j: int| 0 <= j < k ==> !is_ws(s[j]),
        k < s.len() ==> is_ws(s[k]),
    ensures
        token_len(s) == k,
    decreases k,
{
    if k == 0 {
    } else {
        assert(!is_ws(s[0]));
        lemma_token_len_exact(s.skip(1), k - 1);
        assert(forall|j: int| 0 <= j < s.len() - 1 ==> s.skip(1)[j] == s[j + 1]);
    }
}

/// Split `line` into exactly three whitespace-separated tokens, as the
/// request line demands; `None` when the count differs.
fn split3(line: &Vec<u8>) -> (r: Option<(Vec<u8>, Vec<u8>, Vec<u8>)>)
    ensures
        match r {
            Some(t) => split_ws(line@).len() == 3 && t.0@ == split_ws(line@)[0] && t.1@
                == split_ws(line@)[1] && t.2@ == split_ws(line@)[2],
            None => split_ws(line@).len() != 3,
        },
{
    let mut toks: Vec<Vec<u8>> = Vec::new();
    let mut i: usize = 0;
    proof {
        assert(line@.skip(0) =~= line@);
        assert(toks.deep_view() + split_ws(line@) =~= split_ws(line@));
    }
    while i < line.len()
        invariant
            0 <= i <= line.len(),
            split_ws(line@) == toks.deep_view() + split_ws(line@.skip(i as int)),
        decreases line.len() - i,
    {
        if ws(line[i]) {
            proof {
                assert(line@.skip(i as int)[0] == line@[i as int]);
                assert(line@.skip(i as int).skip(1) =~= line@.skip(i + 1));
            }
            i += 1;
        } else {
            let start = i;
            i += 1;
            while i < line.len() && !ws(line[i])
                invariant
                    start < i <= line.len(),
                    forall|j: int| start <= j < i ==> !is_ws(line@[j]),
                decreases line.len() - i,
            {
                i += 1;
            }
            let ghost s = line@.skip(start as int);
            proof {
                assert(forall|j: int|
                    0 <= j < s.len() ==> s[j] == line@[start + j]);
                lemma_token_len_exact(s, i - start);
                assert(s.take(i - start) =~= line@.subrange(start as int, i as int));
                assert(s.skip(i - start) =~= line@.skip(i as int));
            }
            let ghost toks0 = toks.deep_view();
            let t = subvec(line, start, i);
            toks.push(t);
            proof {
                assert(toks.deep_view() =~~= toks0.push(t@));
                assert(split_ws(s) == seq![s.take(token_len(s))] + split_ws(
                    s.skip(token_len(s)),
                ));
                assert(toks0.push(t@) + split_ws(line@.skip(i as int)) =~= toks0 + (seq![t@]
                    + split_ws(line@.skip(i as int))));
            }
        }
    }
    proof {
        assert(line@.skip(line.len() as int) =~= Seq::<u8>::empty());
        assert(split_ws(Seq::<u8>::empty()).len() == 0);
        assert(split_ws(line@) =~~= toks.deep_view());
    }
    if toks.len() == 3 {
        let t2 = toks.pop().unwrap();
        let t1 = toks.pop().unwrap();
        let t0 = toks.pop().unwrap();
        Some((t0, t1, t2))
    } else {
        None
    }
}

// ---------------------------------------------------------------------------
// Laws of the machine: it consumes only from the front of the input, and
// the result of feeding bytes does not depend on how they were fragmented.
// ---------------------------------------------------------------------------

proof fn lemma_find_crlf_is(s: Seq<u8>, i: int)
    requires
        crlf_at(s, i),
        forall|j: int| 0 <= j < i ==> !crlf_at(s, j),
    ensures
        find_crlf(s) == i,
{
    lemma_find_crlf(s);
    let f = find_crlf(s);
    if f == -1 {
        assert(!crlf_at(s, i));
    }
    if 0 <= f < i {
        assert(!crlf_at(s, f));
    }
    if f > i {
        assert(!crlf_at(s, i));
    }
}

/// Appending bytes to the input of an unblocked machine neither unblocks
/// anything new nor changes the step it takes.
proof fn lemma_step_extend(p: PView, b: Seq<u8>)
    requires
        !blocked(p),
    ensures
        !blocked(ext(p, b)),
        step(ext(p, b)) == ext(step(p), b),
{
    let q = ext(p, b);
    match p.state {
        ParseState::RequestLine | ParseState::Headers | ParseState::ChunkSize
            | ParseState::ChunkTrailer => {
            lemma_find_crlf(p.buffer);
            let pos = find_crlf(p.buffer);
            assert(forall|j: int| 0 <= j < p.buffer.len() ==> q.buffer[j] == p.buffer[j]);
            assert(crlf_at(q.buffer, pos));
            assert forall|j: int| 0 <= j < pos implies !crlf_at(q.buffer, j) by {
                assert(!crlf_at(p.buffer, j));
            }
            lemma_find_crlf_is(q.buffer, pos);
            assert(q.buffer.take(pos) =~= p.buffer.take(pos));
            assert(q.buffer.skip(pos + 2) =~= p.buffer.skip(pos + 2) + b);
            assert(step(q) =~~= ext(step(p), b));
        },
        ParseState::Body => {
            assert(body_len(q) == body_len(p));
            let cl = body_len(p) as int;
            assert(q.buffer.take(cl) =~= p.buffer.take(cl));
            assert(q.buffer.skip(cl) =~= p.buffer.skip(cl) + b);
            assert(step(q) =~~= ext(step(p), b));
        },
        ParseState::ChunkData => {
            assert(q.buffer.take(p.chunk as int) =~= p.buffer.take(p.chunk as int));
            assert(q.buffer.skip(p.chunk + 2int) =~= p.buffer.skip(p.chunk + 2int) + b);
            assert(step(q) =~~= ext(step(p), b));
        },
        ParseState::Done | ParseState::Error => {},
    }
}

/// Running, then appending bytes and running again, reaches the same state
/// as appending the bytes up front.
proof fn lemma_run_extend(p: PView, b: Seq<u8>)
    ensures
        run(ext(run(p), b)) == run(ext(p, b)),
    decreases p.buffer.len(), rank(p.state),
{
    if blocked(p) {
    } else {
        lemma_step_measure(p);
        lemma_step_extend(p, b);
        lemma_run_extend(step(p), b);
    }
}

/// A finished run is blocked: it stopped only for want of input.
pub proof fn lemma_run_blocked(p: PView)
    ensures
        blocked(run(p)),
    decreases p.buffer.len(), rank(p.state),
{
    if !blocked(p) {
        lemma_step_measure(p);
        lemma_run_blocked(step(p));
    }
}

/// Feeding input in two pieces reaches exactly the state of feeding it
/// at once: the parser's behaviour is independent of fragmentation.
pub proof fn lemma_feed_split(p: PView, a: Seq<u8>, b: Seq<u8>)
    ensures
        spec_feed(spec_feed(p, a), b) == spec_feed(p, a + b),
{
    lemma_run_extend(ext(p, a), b);
    assert(ext(ext(p, a), b) =~~= ext(p, a + b));
}

/// The state after feeding a list of fragments, one at a time.
pub open spec fn feed_all(p: PView, chunks: Seq<Seq<u8>>) -> PView
    decreases chunks.len(),
{
    if chunks.len() == 0 {
        p
    } else {
        feed_all(spec_feed(p, chunks[0]), chunks.skip(1))
    }
}

/// The concatenation of a list of fragments.
pub open spec fn concat_all(chunks: Seq<Seq<u8>>) -> Seq<u8>
    decreases chunks.len(),
{
    if chunks.len() == 0 {
        Seq::<u8>::empty()
    } else {
        chunks[0] + concat_all(chunks.skip(1))
    }
}

/// Feeding fragments one at a time equals feeding their concatenation
/// in a single call.
pub proof fn lemma_feed_all_concat(p: PView, chunks: Seq<Seq<u8>>)
    requires
        blocked(p),
    ensures
        feed_all(p, chunks) == spec_feed(p, concat_all(chunks)),
    decreases chunks.len(),
{
    if chunks.len() == 0 {
        assert(ext(p, Seq::<u8>::empty()) =~~= p);
    } else {
        lemma_run_blocked(ext(p, chunks[0]));
        lemma_feed_all_concat(spec_feed(p, chunks[0]), chunks.skip(1));
        lemma_feed_split(p, chunks[0], concat_all(chunks.skip(1)));
    }
}

/// However a byte stream is split into fragments, feeding the fragments
/// to a fresh parser ends in the same state, with the same request.
pub proof fn lemma_split_invariance(chunks1: Seq<Seq<u8>>, chunks2: Seq<Seq<u8>>)
    requires
        concat_all(chunks1) == concat_all(chunks2),
    ensures
        feed_all(initial_pview(), chunks1) == feed_all(initial_pview(), chunks2),
{
    lemma_feed_all_concat(initial_pview(), chunks1);
    lemma_feed_all_concat(initial_pview(), chunks2);
}

/// A run consumes only from the front: what remains is a suffix of what
/// was there.
proof fn lemma_run_consumes(p: PView)
    ensures
        exists|k: int|
            0 <= k <= p.buffer.len() && run(p).buffer == #[trigger] p.buffer.skip(k),
    decreases p.buffer.len(), rank(p.state),
{
    if blocked(p) {
        assert(run(p).buffer == p.buffer.skip(0)) by {
            assert(p.buffer.skip(0) =~= p.buffer);
        }
    } else {
        lemma_step_measure(p);
        lemma_run_consumes(step(p));
        let k2 = choose|k: int|
            0 <= k <= step(p).buffer.len() && run(step(p)).buffer == #[trigger] step(
                p,
            ).buffer.skip(k);
        match p.state {
            ParseState::RequestLine | ParseState::Headers | ParseState::ChunkSize
                | ParseState::ChunkTrailer => {
                lemma_find_crlf(p.buffer);
            },
            _ => {},
        }
        let c = choose|c: int|
            0 <= c <= p.buffer.len() && step(p).buffer == #[trigger] p.buffer.skip(c);
        assert(step(p).buffer.skip(k2) =~= p.buffer.skip(c + k2));
        assert(run(p).buffer == p.buffer.skip(c + k2));
    }
}

/// The parser never consumes bytes that have not arrived: after a feed,
/// the retained buffer is a suffix of the old buffer followed by the new
/// bytes, so everything unconsumed is kept.
pub proof fn lemma_feed_retains_suffix(p: PView, d: Seq<u8>)
    ensures
        exists|k: int|
            0 <= k <= p.buffer.len() + d.len() && spec_feed(p, d).buffer == #[trigger] (p.buffer
                + d).skip(k),
{
    lemma_run_consumes(ext(p, d));
}

// ---------------------------------------------------------------------------
// The executable machine, one function per control state. Each either takes
// exactly the specification step, or reports that the machine is blocked.
// ---------------------------------------------------------------------------

impl Parser {
    fn step_request_line(&mut self) -> (progress: bool)
        requires
            old(self)@.state == ParseState::RequestLine,
        ensures
            progress ==> !blocked(old(self)@) && final(self)@ == step(old(self)@),
            !progress ==> blocked(old(self)@) && final(self)@ == old(self)@,
    {
        let pos = match scan_crlf(&self.buffer) {
            Some(p) => p,
            None => {
                return false;
            },
        };
        let line = subvec(&self.buffer, 0, pos);
        proof {
            assert(line@ =~= self@.buffer.take(pos as int));
        }
        match split3(&line) {
            Some((m, p, v)) => {
                self.request.method = Method::from(m);
                self.request.path = p;
                self.request.version = v;
                self.state = ParseState::Headers;
                drain_front(&mut self.buffer, pos + 2);
                proof {
                    assert(self@ =~~= step(old(self)@));
                }
            },
            None => {
                self.state = ParseState::Error;
                proof {
                    assert(self@ =~~= step(old(self)@));
                }
            },
        }
        true
    }

    fn step_headers(&mut self) -> (progress: bool)
        requires
            old(self)@.state == ParseState::Headers,
        ensures
            progress ==> !blocked(old(self)@) && final(self)@ == step(old(self)@),
            !progress ==> blocked(old(self)@) && final(self)@ == old(self)@,
    {
        let pos = match scan_crlf(&self.buffer) {
            Some(p) => p,
            None => {
                return false;
            },
        };
        if pos == 0 {
            let te_key = make_key_transfer_encoding();
            let next = match lookup_vec(&self.request.headers, &te_key) {
                Some(te) => {
                    let lte = to_lower_vec(te);
                    let ch = make_val_chunked();
                    if bytes_eq(&lte, &ch) {
                        ParseState::ChunkSize
                    } else {
                        ParseState::Error
                    }
                },
                None => {
                    let cl_key = make_key_content_length();
                    match lookup_vec(&self.request.headers, &cl_key) {
                        Some(v) => match parse_dec(v) {
                            Some(n) => if n == 0 {
                                ParseState::Done
                            } else {
                                ParseState::Body
                            },
                            None => ParseState::Error,
                        },
                        None => ParseState::Done,
                    }
                },
            };
            drain_front(&mut self.buffer, 2);
            self.state = next;
            proof {
                assert(self@ =~~= step(old(self)@));
            }
        } else {
            let line = subvec(&self.buffer, 0, pos);
            proof {
                assert(line@ =~= self@.buffer.take(pos as int));
            }
            match scan_byte(&line, 58) {
                Some(c) => {
                    let rawk = subvec(&line, 0, c);
                    let rawv = subvec(&line, c + 1, line.len());
                    proof {
                        assert(rawk@ =~= line@.take(c as int));
                        assert(rawv@ =~= line@.skip(c + 1));
                    }
                    let tk = trim_vec(&rawk);
                    let k = to_lower_vec(&tk);
                    let v = trim_vec(&rawv);
                    insert_header_vec(&mut self.request.headers, k, v);
                },
                None => {},
            }
            drain_front(&mut self.buffer, pos + 2);
            proof {
                assert(self@ =~~= step(old(self)@));
            }
        }
        true
    }

    fn step_body(&mut self) -> (progress: bool)
        requires
            old(self)@.state == ParseState::Body,
        ensures
            progress ==> !blocked(old(self)@) && final(self)@ == step(old(self)@),
            !progress ==> blocked(old(self)@) && final(self)@ == old(self)@,
    {
        let cl_key = make_key_content_length();
        let cl: usize = match lookup_vec(&self.request.headers, &cl_key) {
            Some(v) => match parse_dec(v) {
                Some(n) => n,
                None => 0,
            },
            None => 0,
        };
        proof {
            assert(cl == body_len(self@));
        }
        if self.buffer.len() >= cl {
            let body = subvec(&self.buffer, 0, cl);
            drain_front(&mut self.buffer, cl);
            self.request.body = body;
            self.state = ParseState::Done;
            proof {
                assert(self@ =~~= step(old(self)@));
            }
            true
        } else {
            false
        }
    }

    fn step_chunk_size(&mut self) -> (progress: bool)
        requires
            old(self)@.state == ParseState::ChunkSize,
        ensures
            progress ==> !blocked(old(self)@) && final(self)@ == step(old(self)@),
            !progress ==> blocked(old(self)@) && final(self)@ == old(self)@,
    {
        let pos = match scan_crlf(&self.buffer) {
            Some(p) => p,
            None => {
                return false;
            },
        };
        let raw = subvec(&self.buffer, 0, pos);
        proof {
            assert(raw@ =~= self@.buffer.take(pos as int));
        }
        let line = trim_vec(&raw);
        match parse_hex(&line) {
            Some(size) => {
                drain_front(&mut self.buffer, pos + 2);
                self.chunk_size = size;
                self.state = if size == 0 {
                    ParseState::ChunkTrailer
                } else {
                    ParseState::ChunkData
                };
                proof {
                    assert(self@ =~~= step(old(self)@));
                }
            },
            None => {
                self.state = ParseState::Error;
                proof {
                    assert(self@ =~~= step(old(self)@));
                }
            },
        }
        true
    }

    fn step_chunk_data(&mut self) -> (progress: bool)
        requires
            old(self)@.state == ParseState::ChunkData,
        ensures
            progress ==> !blocked(old(self)@) && final(self)@ == step(old(self)@),
            !progress ==> blocked(old(self)@) && final(self)@ == old(self)@,
    {
        if self.buffer.len() >= 2 && self.buffer.len() - 2 >= self.chunk_size {
            let mut chunk = subvec(&self.buffer, 0, self.chunk_size);
            self.request.body.append(&mut chunk);
            drain_front(&mut self.buffer, self.chunk_size + 2);
            self.state = ParseState::ChunkSize;
            proof {
                assert(self@ =~~= step(old(self)@));
            }
            true
        } else {
            false
        }
    }

    fn step_chunk_trailer(&mut self) -> (progress: bool)
        requires
            old(self)@.state == ParseState::ChunkTrailer,
        ensures
            progress ==> !blocked(old(self)@) && final(self)@ == step(old(self)@),
            !progress ==> blocked(old(self)@) && final(self)@ == old(self)@,
    {
        let pos = match scan_crlf(&self.buffer) {
            Some(p) => p,
            None => {
                return false;
            },
        };
        if pos == 0 {
            drain_front(&mut self.buffer, 2);
            self.state = ParseState::Done;
        } else {
            drain_front(&mut self.buffer, pos + 2);
        }
        proof {
            assert(self@ =~~= step(old(self)@));
        }
        true
    }

    /// Feed `data` to the parser: append it to the unconsumed input and
    /// advance the machine as far as the bytes allow. The parser's whole
    /// behaviour is the specification machine `spec_feed`.
    pub fn parse(&mut self, data: &[u8])
        ensures
            final(self)@ == spec_feed(old(self)@, data@),
    {
        append_bytes(&mut self.buffer, data);
        proof {
            assert(self@ =~~= ext(old(self)@, data@));
        }
        let mut progress = true;
        while progress
            invariant
                run(self@) == run(ext(old(self)@, data@)),
                !progress ==> blocked(self@),
            decreases self@.buffer.len(), rank(self@.state), (if progress {
                1int
            } else {
                0int
            }),
        {
            let ghost prev = self@;
            progress = match self.state {
                ParseState::RequestLine => self.step_request_line(),
                ParseState::Headers => self.step_headers(),
                ParseState::Body => self.step_body(),
                ParseState::ChunkSize => self.step_chunk_size(),
                ParseState::ChunkData => self.step_chunk_data(),
                ParseState::ChunkTrailer => self.step_chunk_trailer(),
                ParseState::Done => false,
                ParseState::Error => false,
            };
            proof {
                if progress {
                    lemma_step_measure(prev);
                    assert(run(prev) == run(step(prev)));
                }
            }
        }
        proof {
            assert(run(self@) == self@);
        }
    }
}

// ---------------------------------------------------------------------------
// Responses and their serialization
// ---------------------------------------------------------------------------

/// The fixed reason phrase for a status code; "Unknown" for any other code.
pub open spec fn reason_phrase(code: u16) -> Seq<u8> {
    if code == 200 { seq![79u8, 75u8]  // OK
    } else
    if code == 201 { seq![67u8, 114u8, 101u8, 97u8, 116u8, 101u8, 100u8]  // Created
    } else
    if code == 204 { seq![78u8, 111u8, 32u8, 67u8, 111u8, 110u8, 116u8, 101u8, 110u8, 116u8]  // No Content
    } else
    if code == 301 { seq![77u8, 111u8, 118u8, 101u8, 100u8, 32u8, 80u8, 101u8, 114u8, 109u8, 97u8, 110u8, 101u8, 110u8, 116u8, 108u8, 121u8]  // Moved Permanently
    } else
    if code == 400 { seq![66u8, 97u8, 100u8, 32u8, 82u8, 101u8, 113u8, 117u8, 101u8, 115u8, 116u8]  // Bad Request
    } else
    if code == 403 { seq![70u8, 111u8, 114u8, 98u8, 105u8, 100u8, 100u8, 101u8, 110u8]  // Forbidden
    } else
    if code == 404 { seq![78u8, 111u8, 116u8, 32u8, 70u8, 111u8, 117u8, 110u8, 100u8]  // Not Found
    } else
    if code == 405 { seq![77u8, 101u8, 116u8, 104u8, 111u8, 100u8, 32u8, 78u8, 111u8, 116u8, 32u8, 65u8, 108u8, 108u8, 111u8, 119u8, 101u8, 100u8]  // Method Not Allowed
    } else
    if code == 413 { seq![80u8, 97u8, 121u8, 108u8, 111u8, 97u8, 100u8, 32u8, 84u8, 111u8, 111u8, 32u8, 76u8, 97u8, 114u8, 103u8, 101u8]  // Payload Too Large
    } else
    if code == 500 { seq![73u8, 110u8, 116u8, 101u8, 114u8, 110u8, 97u8, 108u8, 32u8, 83u8, 101u8, 114u8, 118u8, 101u8, 114u8, 32u8, 69u8, 114u8, 114u8, 111u8, 114u8]  // Internal Server Error
    } else
    { seq![85u8, 110u8, 107u8, 110u8, 111u8, 119u8, 110u8]  // Unknown
    }
}

/// Decimal digits of `n`, most significant first.
pub open spec fn dec_digits(n: nat) -> Seq<u8>
    decreases n,
{
    if n < 10 {
        seq![(48 + n) as u8]
    } else {
        dec_digits(n / 10) + seq![(48 + n % 10) as u8]
    }
}

/// The bytes of `"\r\n"`.
pub open spec fn crlf() -> Seq<u8> {
    seq![13u8, 10u8]
}

/// The bytes of `"HTTP/1.1 "`.
pub open spec fn http11_prefix() -> Seq<u8> {
    seq![72u8, 84u8, 84u8, 80u8, 47u8, 49u8, 46u8, 49u8, 32u8]
}

/// The bytes of `"server"`.
pub open spec fn key_server() -> Seq<u8> {
    seq![115u8, 101u8, 114u8, 118u8, 101u8, 114u8]
}

/// The bytes of `"RustLocalServer/0.1.0"`.
pub open spec fn val_server() -> Seq<u8> {
    seq![82u8, 117u8, 115u8, 116u8, 76u8, 111u8, 99u8, 97u8, 108u8, 83u8, 101u8, 114u8, 118u8, 101u8, 114u8, 47u8, 48u8, 46u8, 49u8, 46u8, 48u8]
}

/// One `name: value` line per header, each ended by CRLF, in list order.
pub open spec fn header_block(hs: Seq<(Seq<u8>, Seq<u8>)>) -> Seq<u8>
    decreases hs.len(),
{
    if hs.len() == 0 {
        Seq::<u8>::empty()
    } else {
        hs[0].0 + seq![58u8, 32u8] + hs[0].1 + crlf() + header_block(hs.skip(1))
    }
}

/// The wire form of a response: status line, header lines, blank line, body.
pub open spec fn serialize_response(r: ResponseV) -> Seq<u8> {
    http11_prefix() + dec_digits(r.status_code as nat) + seq![32u8] + reason_phrase(r.status_code)
        + crlf() + header_block(r.headers) + crlf() + r.body
}

/// An HTTP response under construction. Header names are stored
/// lower-cased, matching the parser's normalization.
pub struct Response {
    pub status_code: u16,
    pub headers: Vec<(Vec<u8>, Vec<u8>)>,
    pub body: Vec<u8>,
}

#[verifier::ext_equal]
pub ghost struct ResponseV {
    pub status_code: u16,
    pub headers: Seq<(Seq<u8>, Seq<u8>)>,
    pub body: Seq<u8>,
}

impl View for Response {
    type V = ResponseV;

    open spec fn view(&self) -> ResponseV {
        ResponseV {
            status_code: self.status_code,
            headers: headers_view(self.headers@),
            body: self.body@,
        }
    }
}

impl Response {
    /// A response with the given status, seeded with the `server` header
    /// and an empty body.
    pub fn new(status_code: u16) -> (r: Response)
        ensures
            r@ == (ResponseV {
                status_code,
                headers: seq![(key_server(), val_server())],
                body: Seq::<u8>::empty(),
            }),
    {
        let ks: [u8; 6] = [115u8, 101u8, 114u8, 118u8, 101u8, 114u8];
        let vs: [u8; 21] = [82u8, 117u8, 115u8, 116u8, 76u8, 111u8, 99u8, 97u8, 108u8, 83u8, 101u8, 114u8, 118u8, 101u8, 114u8, 47u8, 48u8, 46u8, 49u8, 46u8, 48u8];
        let mut headers: Vec<(Vec<u8>, Vec<u8>)> = Vec::new();
        headers.push(
            (vstd::slice::slice_to_vec(ks.as_slice()), vstd::slice::slice_to_vec(vs.as_slice())),
        );
        let r = Response { status_code, headers, body: Vec::new() };
        proof {
            assert(r@.headers =~~= seq![(key_server(), val_server())]);
        }
        r
    }

    /// Bind a header name to a value, replacing any previous binding.
    pub fn set_header(&mut self, k: Vec<u8>, v: Vec<u8>)
        ensures
            final(self)@ == (ResponseV {
                headers: insert_header(old(self)@.headers, k@, v@),
                ..old(self)@
            }),
    {
        insert_header_vec(&mut self.headers, k, v);
    }

    /// Serialize to wire bytes: status line, headers in list order, blank
    /// line, body. `content-length` is the caller's responsibility.
    pub fn to_bytes(&self) -> (r: Vec<u8>)
        ensures
            r@ == serialize_response(self@),
    {
        let mut out: Vec<u8> = Vec::new();
        let pre: [u8; 9] = [72u8, 84u8, 84u8, 80u8, 47u8, 49u8, 46u8, 49u8, 32u8];
        append_bytes(&mut out, pre.as_slice());
        proof {
            assert(out@ =~= http11_prefix());
        }
        push_dec(&mut out, self.status_code as u64);
        out.push(32u8);
        let reason = reason_vec(self.status_code);
        append_bytes(&mut out, reason.as_slice());
        out.push(13u8);
        out.push(10u8);
        let ghost pre_part = http11_prefix() + dec_digits(self.status_code as nat) + seq![32u8]
            + reason_phrase(self.status_code) + crlf();
        proof {
            assert(out@ =~= pre_part);
        }
        let ghost hv = self@.headers;
        let mut i: usize = 0;
        proof {
            assert(hv.skip(0) =~= hv);
        }
        while i < self.headers.len()
            invariant
                0 <= i <= self.headers.len(),
                hv == self@.headers,
                out@ + header_block(hv.skip(i as int)) == pre_part + header_block(hv),
            decreases self.headers.len() - i,
        {
            let ghost out0 = out@;
            append_bytes(&mut out, self.headers[i].0.as_slice());
            out.push(58u8);
            out.push(32u8);
            append_bytes(&mut out, self.headers[i].1.as_slice());
            out.push(13u8);
            out.push(10u8);
            proof {
                let tail = hv.skip(i as int);
                assert(tail[0] == hv[i as int]);
                assert(tail.skip(1) =~= hv.skip(i + 1));
                assert(out@ =~= out0 + (hv[i as int].0 + seq![58u8, 32u8] + hv[i as int].1
                    + crlf()));
                assert(out0 + header_block(hv.skip(i as int)) =~= out@ + header_block(
                    hv.skip(i + 1),
                ));
            }
            i += 1;
        }
        proof {
            assert(hv.skip(self.headers.len() as int) =~= Seq::<(Seq<u8>, Seq<u8>)>::empty());
            assert(out@ =~= pre_part + header_block(hv));
        }
        out.push(13u8);
        out.push(10u8);
        append_bytes(&mut out, self.body.as_slice());
        proof {
            assert(out@ =~= serialize_response(self@));
        }
        out
    }
}

/// Append the decimal digits of `n`.
pub fn push_dec(out: &mut Vec<u8>, n: u64)
    ensures
        final(out)@ == old(out)@ + dec_digits(n as nat),
    decreases n,
{
    if n < 10 {
        out.push(48 + n as u8);
        proof {
            assert(final(out)@ =~= old(out)@ + dec_digits(n as nat));
        }
    } else {
        push_dec(out, n / 10);
        out.push(48 + (n % 10) as u8);
        proof {
            assert(final(out)@ =~= old(out)@ + dec_digits(n as nat));
        }
    }
}

// ---------------------------------------------------------------------------
// The round-trip law: parsing a serialized response recovers its pieces.
// ---------------------------------------------------------------------------

/// No carriage return or line feed anywhere in `s`.
pub open spec fn crlf_free(s: Seq<u8>) -> bool {
    forall|i: int| 0 <= i < s.len() ==> s[i] != 13 && s[i] != 10
}

/// No whitespace byte anywhere in `s`.
pub open spec fn ws_free(s: Seq<u8>) -> bool {
    forall|i: int| 0 <= i < s.len() ==> !is_ws(s[i])
}

/// A header pair that survives the wire: a lower-cased, trimmed name
/// without colons, and a trimmed value, both free of line breaks.
pub open spec fn header_pair_wf(p: (Seq<u8>, Seq<u8>)) -> bool {
    &&& crlf_free(p.0)
    &&& crlf_free(p.1)
    &&& lower(p.0) == p.0
    &&& trim(p.0) == p.0
    &&& trim(p.1) == p.1
    &&& forall|i: int| 0 <= i < p.0.len() ==> p.0[i] != 58
}

/// The bytes of `"HTTP/1.1"`, the version token of every status line.
pub open spec fn http11_token() -> Seq<u8> {
    seq![72u8, 84u8, 84u8, 80u8, 47u8, 49u8, 46u8, 49u8]
}

proof fn lemma_find_byte_is(s: Seq<u8>, c: u8, i: int)
    requires
        0 <= i < s.len(),
        s[i] == c,
        forall|j: int| 0 <= j < i ==> s[j] != c,
    ensures
        find_byte(s, c) == i,
{
    lemma_find_byte(s, c);
    let f = find_byte(s, c);
    if f == -1 {
        assert(s[i] != c);
    }
    if 0 <= f < i {
        assert(s[f] != c);
    }
    if f > i {
        assert(s[i] != c);
    }
}

/// The first CRLF of `a + crlf() + rest` sits right after `a` when `a`
/// itself holds no line break.
proof fn lemma_crlf_after(a: Seq<u8>, rest: Seq<u8>)
    requires
        crlf_free(a),
    ensures
        find_crlf(a + crlf() + rest) == a.len(),
        (a + crlf() + rest).take(a.len() as int) == a,
        (a + crlf() + rest).skip(a.len() + 2int) == rest,
{
    let s = a + crlf() + rest;
    assert(s[a.len() as int] == 13);
    assert(s[a.len() + 1int] == 10);
    assert(crlf_at(s, a.len() as int));
    assert forall|j: int| 0 <= j < a.len() implies !crlf_at(s, j) by {
        assert(s[j] == a[j]);
    }
    lemma_find_crlf_is(s, a.len() as int);
    assert(s.take(a.len() as int) =~= a);
    assert(s.skip(a.len() + 2int) =~= rest);
}

/// The decimal digits of `n` are a well-formed number reading back as `n`.
pub proof fn lemma_dec_digits_value(n: nat)
    ensures
        is_dec(dec_digits(n)),
        dec_value(dec_digits(n)) == n,
        ws_free(dec_digits(n)),
        dec_digits(n).len() >= 1,
    decreases n,
{
    if n < 10 {
        let d = dec_digits(n);
        assert(d == seq![(48 + n) as u8]);
        assert(d.drop_last() =~= Seq::<u8>::empty());
        assert(d.last() == (48 + n) as u8);
        assert(dec_value(d) == dec_value(d.drop_last()) * 10 + (d.last() - 48) as nat);
        assert((d.last() - 48) as nat == n);
        assert(is_digit(d[0]) && !is_ws(d[0]));
    } else {
        lemma_dec_digits_value(n / 10);
        let d = dec_digits(n / 10) + seq![(48 + n % 10) as u8];
        assert(dec_digits(n) == d);
        assert(d.drop_last() =~= dec_digits(n / 10));
        assert(d.last() == (48 + n % 10) as u8);
        assert(n % 10 < 10);
        assert((d.last() - 48) as nat == n % 10);
        assert(n / 10 * 10 + n % 10 == n) by (nonlinear_arith);
        assert(dec_value(d) == dec_value(d.drop_last()) * 10 + (d.last() - 48) as nat);
        assert forall|i: int| 0 <= i < d.len() implies is_digit(d[i]) && !is_ws(d[i]) by {
            if i < d.len() - 1 {
                assert(d[i] == dec_digits(n / 10)[i]);
                assert(is_digit(dec_digits(n / 10)[i]));
                assert(!is_ws(dec_digits(n / 10)[i]));
            }
        }
    }
}

proof fn lemma_split_ws_token(t: Seq<u8>, u: Seq<u8>)
    requires
        t.len() > 0,
        ws_free(t),
        u.len() == 0 || is_ws(u[0]),
    ensures
        split_ws(t + u) == seq![t] + split_ws(u),
{
    let s = t + u;
    assert forall|j: int| 0 <= j < t.len() implies !is_ws(s[j]) by {
        assert(s[j] == t[j]);
    }
    if t.len() < s.len() {
        assert(s[t.len() as int] == u[0]);
    }
    lemma_token_len_exact(s, t.len() as int);
    assert(s.take(t.len() as int) =~= t);
    assert(s.skip(t.len() as int) =~= u);
    assert(!is_ws(s[0]));
}

proof fn lemma_split_ws_sp(u: Seq<u8>)
    ensures
        split_ws(seq![32u8] + u) == split_ws(u),
{
    let s = seq![32u8] + u;
    assert(is_ws(s[0]));
    assert(s.skip(1) =~= u);
}

/// The status line splits into exactly the version token, the code's
/// digits, and the reason phrase, when the reason is a single word.
proof fn lemma_status_line_tokens(code: u16)
    requires
        ws_free(reason_phrase(code)),
        reason_phrase(code).len() > 0,
    ensures
        split_ws(http11_prefix() + dec_digits(code as nat) + seq![32u8] + reason_phrase(code))
            == seq![http11_token(), dec_digits(code as nat), reason_phrase(code)],
{
    let dd = dec_digits(code as nat);
    let reason = reason_phrase(code);
    lemma_dec_digits_value(code as nat);
    let after_v = seq![32u8] + (dd + (seq![32u8] + reason));
    assert(http11_prefix() + dd + seq![32u8] + reason =~= http11_token() + after_v);
    assert(ws_free(http11_token()));
    assert(after_v[0] == 32);
    lemma_split_ws_token(http11_token(), after_v);
    lemma_split_ws_sp(dd + (seq![32u8] + reason));
    assert((seq![32u8] + reason)[0] == 32);
    lemma_split_ws_token(dd, seq![32u8] + reason);
    lemma_split_ws_sp(reason);
    lemma_split_ws_token(reason, Seq::<u8>::empty());
    assert(reason + Seq::<u8>::empty() =~= reason);
    assert(split_ws(Seq::<u8>::empty()) =~= Seq::<Seq<u8>>::empty());
    assert(seq![http11_token()] + (seq![dd] + (seq![reason]
        + Seq::<Seq<u8>>::empty())) =~= seq![http11_token(), dd, reason]);
}

/// Inserting a list of headers one after the other, starting from `h`.
pub open spec fn fold_insert(
    h: Seq<(Seq<u8>, Seq<u8>)>,
    hs: Seq<(Seq<u8>, Seq<u8>)>,
) -> Seq<(Seq<u8>, Seq<u8>)>
    decreases hs.len(),
{
    if hs.len() == 0 {
        h
    } else {
        fold_insert(insert_header(h, hs[0].0, hs[0].1), hs.skip(1))
    }
}

proof fn lemma_fold_insert_app(h: Seq<(Seq<u8>, Seq<u8>)>, hs: Seq<(Seq<u8>, Seq<u8>)>)
    requires
        forall|k1: int, k2: int|
            0 <= k1 < k2 < hs.len() ==> (#[trigger] hs[k1]).0 != (#[trigger] hs[k2]).0,
        forall|j: int, k: int|
            0 <= j < h.len() && 0 <= k < hs.len() ==> (#[trigger] h[j]).0 != (
            #[trigger] hs[k]).0,
    ensures
        fold_insert(h, hs) == h + hs,
    decreases hs.len(),
{
    if hs.len() == 0 {
        assert(h + hs =~= h);
    } else {
        assert forall|j: int| 0 <= j < h.len() implies (#[trigger] h[j]).0 != hs[0].0 by {}
        lemma_insert_none(h, hs[0].0, hs[0].1);
        let h2 = h.push((hs[0].0, hs[0].1));
        assert forall|j: int, k: int|
            0 <= j < h2.len() && 0 <= k < hs.skip(1).len() implies (#[trigger] h2[j]).0 != (
        #[trigger] hs.skip(1)[k]).0 by {
            assert(hs.skip(1)[k] == hs[k + 1]);
            if j < h.len() {
                assert(h[j].0 != hs[k + 1].0);
            } else {
                assert(h2[j] == (hs[0].0, hs[0].1));
                assert(hs[0].0 != hs[k + 1].0);
            }
        }
        assert forall|k1: int, k2: int|
            0 <= k1 < k2 < hs.skip(1).len() implies (#[trigger] hs.skip(1)[k1]).0 != (
        #[trigger] hs.skip(1)[k2]).0 by {
            assert(hs.skip(1)[k1] == hs[k1 + 1]);
            assert(hs.skip(1)[k2] == hs[k2 + 1]);
        }
        lemma_fold_insert_app(h2, hs.skip(1));
        assert(insert_header(h, hs[0].0, hs[0].1) == h2);
        assert(h2 + hs.skip(1) =~= h + hs);
    }
}

proof fn lemma_trim_front_len(s: Seq<u8>)
    ensures
        trim_front(s).len() <= s.len(),
        s.len() > 0 && is_ws(s[0]) ==> trim_front(s).len() < s.len(),
    decreases s.len(),
{
    if s.len() > 0 && is_ws(s[0]) {
        lemma_trim_front_len(s.skip(1));
    }
}

proof fn lemma_trim_back_len(s: Seq<u8>)
    ensures
        trim_back(s).len() <= s.len(),
    decreases s.len(),
{
    if s.len() > 0 && is_ws(s.last()) {
        lemma_trim_back_len(s.drop_last());
    }
}

/// A trimmed value is untouched by one more leading space.
proof fn lemma_trim_sp(v: Seq<u8>)
    requires
        trim(v) == v,
    ensures
        trim(seq![32u8] + v) == v,
{
    let s = seq![32u8] + v;
    assert(is_ws(s[0]));
    assert(s.skip(1) =~= v);
    if v.len() > 0 && is_ws(v[0]) {
        lemma_trim_front_len(v);
        lemma_trim_back_len(trim_front(v));
        assert(false);
    }
    assert(trim_front(s) == trim_front(v));
    assert(trim_front(v) == v);
}

/// Running the machine through the header lines inserts exactly those
/// headers and leaves the rest of the input untouched.
proof fn lemma_run_headers(p: PView, hs: Seq<(Seq<u8>, Seq<u8>)>, tail: Seq<u8>)
    requires
        p.state == ParseState::Headers,
        p.buffer == header_block(hs) + tail,
        forall|k: int| 0 <= k < hs.len() ==> header_pair_wf(#[trigger] hs[k]),
    ensures
        run(p) == run(
            PView {
                req: RequestV { headers: fold_insert(p.req.headers, hs), ..p.req },
                buffer: tail,
                ..p
            },
        ),
    decreases hs.len(),
{
    if hs.len() == 0 {
        assert(header_block(hs) + tail =~= tail);
        assert(p =~~= (PView {
            req: RequestV { headers: fold_insert(p.req.headers, hs), ..p.req },
            buffer: tail,
            ..p
        }));
    } else {
        let k = hs[0].0;
        let v = hs[0].1;
        assert(header_pair_wf(hs[0]));
        let line = k + seq![58u8, 32u8] + v;
        let rest = header_block(hs.skip(1)) + tail;
        assert(p.buffer =~= line + crlf() + rest);
        assert forall|i: int| 0 <= i < line.len() implies line[i] != 13 && line[i] != 10 by {
            if i < k.len() {
                assert(line[i] == k[i]);
            } else if i >= k.len() + 2 {
                assert(line[i] == v[i - k.len() - 2]);
            }
        }
        lemma_crlf_after(line, rest);
        let pos = find_crlf(p.buffer);
        assert(pos == line.len());
        assert(pos > 0);
        assert(p.buffer.take(pos) == line);
        assert(p.buffer.skip(pos + 2) == rest);
        // the first colon ends the name
        assert forall|j: int| 0 <= j < k.len() implies line[j] != 58 by {
            assert(line[j] == k[j]);
        }
        assert(line[k.len() as int] == 58);
        lemma_find_byte_is(line, 58, k.len() as int);
        assert(line.take(k.len() as int) =~= k);
        assert(line.skip(k.len() + 1int) =~= seq![32u8] + v);
        lemma_trim_sp(v);
        assert(!blocked(p));
        let q = step(p);
        assert(q.req.headers == insert_header(p.req.headers, k, v));
        assert(q.buffer == rest);
        assert(q.state == ParseState::Headers);
        lemma_run_headers(q, hs.skip(1), tail);
        assert(fold_insert(q.req.headers, hs.skip(1)) == fold_insert(p.req.headers, hs));
        assert((PView {
            req: RequestV { headers: fold_insert(q.req.headers, hs.skip(1)), ..q.req },
            buffer: tail,
            ..q
        }) =~~= (PView {
            req: RequestV { headers: fold_insert(p.req.headers, hs), ..p.req },
            buffer: tail,
            ..p
        }));
        lemma_step_measure(p);
    }
}

/// Parsing the serialization of a response recovers it: the machine ends
/// in `Done` with the code's digits as the target, the reason phrase as
/// the version, and exactly the response's headers and body — provided
/// the reason is a single word, the header pairs are wire-safe with
/// distinct names, no `transfer-encoding` header is present, and the
/// `content-length` header matches the body.
pub proof fn lemma_response_roundtrip(r: ResponseV)
    requires
        ws_free(reason_phrase(r.status_code)),
        reason_phrase(r.status_code).len() > 0,
        forall|k: int| 0 <= k < r.headers.len() ==> header_pair_wf(#[trigger] r.headers[k]),
        forall|k1: int, k2: int|
            0 <= k1 < k2 < r.headers.len() ==> (#[trigger] r.headers[k1]).0 != (
            #[trigger] r.headers[k2]).0,
        lookup(r.headers, key_transfer_encoding()) is None,
        lookup(r.headers, key_content_length()) == Some(dec_digits(r.body.len() as nat)),
        r.body.len() <= usize::MAX,
    ensures
        spec_feed(initial_pview(), serialize_response(r)) == (PView {
            state: ParseState::Done,
            req: RequestV {
                method: MethodV::OTHER(http11_token()),
                path: dec_digits(r.status_code as nat),
                version: reason_phrase(r.status_code),
                headers: r.headers,
                body: r.body,
            },
            buffer: Seq::<u8>::empty(),
            chunk: 0,
        }),
{
    let dd = dec_digits(r.status_code as nat);
    let reason = reason_phrase(r.status_code);
    lemma_dec_digits_value(r.status_code as nat);
    let status_content = http11_prefix() + dd + seq![32u8] + reason;
    let after_status = header_block(r.headers) + (crlf() + r.body);
    let wire = serialize_response(r);
    let p0 = ext(initial_pview(), wire);
    assert(p0.buffer =~= wire);
    assert(wire =~= status_content + crlf() + after_status);

    // the request line
    assert forall|i: int|
        0 <= i < status_content.len() implies status_content[i] != 13 && status_content[i]
        != 10 by {
        if i < http11_prefix().len() {
            assert(status_content[i] == http11_prefix()[i]);
        } else if i < http11_prefix().len() + dd.len() {
            assert(status_content[i] == dd[i - http11_prefix().len()]);
            assert(is_digit(dd[i - http11_prefix().len()]));
        } else if i > http11_prefix().len() + dd.len() {
            assert(status_content[i] == reason[i - http11_prefix().len() - dd.len() - 1]);
            assert(!is_ws(reason[i - http11_prefix().len() - dd.len() - 1]));
        }
    }
    assert(p0.buffer == status_content + crlf() + after_status);
    lemma_crlf_after(status_content, after_status);
    assert(!blocked(p0));
    lemma_status_line_tokens(r.status_code);
    let toks = split_ws(p0.buffer.take(find_crlf(p0.buffer)));
    assert(p0.buffer.take(find_crlf(p0.buffer)) == status_content);
    assert(toks.len() == 3);
    assert(toks[0] == http11_token() && toks[1] == dd && toks[2] == reason);
    assert(http11_token().len() == 8);
    assert(method_of(toks[0]) == MethodV::OTHER(http11_token()));
    let p1 = step(p0);
    assert(p1.state == ParseState::Headers);
    assert(p1.buffer == after_status);
    assert(p1.req.path == dd && p1.req.version == reason);
    assert(p1.req.headers =~= Seq::<(Seq<u8>, Seq<u8>)>::empty());
    assert(p1.req.body =~= Seq::<u8>::empty());

    // the header lines
    assert(p1.buffer =~= header_block(r.headers) + (crlf() + r.body));
    lemma_run_headers(p1, r.headers, crlf() + r.body);
    assert forall|j: int, k: int|
        0 <= j < p1.req.headers.len() && 0 <= k < r.headers.len() implies (
    #[trigger] p1.req.headers[j]).0 != (#[trigger] r.headers[k]).0 by {}
    lemma_fold_insert_app(p1.req.headers, r.headers);
    assert(fold_insert(p1.req.headers, r.headers) =~= r.headers);
    let p2 = PView {
        req: RequestV { headers: r.headers, ..p1.req },
        buffer: crlf() + r.body,
        ..p1
    };
    assert(run(p1) == run(p2)) by {
        assert((PView {
            req: RequestV { headers: fold_insert(p1.req.headers, r.headers), ..p1.req },
            buffer: crlf() + r.body,
            ..p1
        }) =~~= p2);
    }

    // the blank line, and the body
    lemma_crlf_after(Seq::<u8>::empty(), r.body);
    assert(Seq::<u8>::empty() + crlf() + r.body =~= crlf() + r.body);
    assert(find_crlf(p2.buffer) == 0);
    assert(!blocked(p2));
    let p3 = step(p2);
    assert(p3.buffer =~= r.body);
    let n = r.body.len() as nat;
    lemma_dec_digits_value(n);
    assert(is_dec(dec_digits(n)) && dec_value(dec_digits(n)) == n);
    let target = PView {
        state: ParseState::Done,
        req: RequestV {
            method: MethodV::OTHER(http11_token()),
            path: dd,
            version: reason,
            headers: r.headers,
            body: r.body,
        },
        buffer: Seq::<u8>::empty(),
        chunk: 0,
    };
    if n == 0 {
        assert(p3.state == ParseState::Done);
        assert(p3.req.body =~= r.body);
        assert(p3.buffer =~= Seq::<u8>::empty());
        assert(p3 =~~= target);
        assert(run(p3) == p3);
    } else {
        assert(p3.state == ParseState::Body);
        assert(body_len(p3) == n);
        assert(!blocked(p3));
        let p4 = step(p3);
        assert(p4.req.body =~= r.body);
        assert(p4.buffer =~= Seq::<u8>::empty());
        assert(p4 =~~= target);
        assert(run(p4) == p4);
        lemma_step_measure(p3);
    }
    lemma_step_measure(p0);
    lemma_step_measure(p2);
    assert(p0.chunk == 0);
    assert(run(p0) == target);
}

/// The reason phrase for `code`, as a vector.
fn reason_vec(code: u16) -> (r: Vec<u8>)
    ensures
        r@ == reason_phrase(code),
{
    let v: Vec<u8> = match code {
        200 => { let a: [u8; 2] = [79u8, 75u8]; vstd::slice::slice_to_vec(a.as_slice()) },  // OK
        201 => { let a: [u8; 7] = [67u8, 114u8, 101u8, 97u8, 116u8, 101u8, 100u8]; vstd::slice::slice_to_vec(a.as_slice()) },  // Created
        204 => { let a: [u8; 10] = [78u8, 111u8, 32u8, 67u8, 111u8, 110u8, 116u8, 101u8, 110u8, 116u8]; vstd::slice::slice_to_vec(a.as_slice()) },  // No Content
        301 => { let a: [u8; 17] = [77u8, 111u8, 118u8, 101u8, 100u8, 32u8, 80u8, 101u8, 114u8, 109u8, 97u8, 110u8, 101u8, 110u8, 116u8, 108u8, 121u8]; vstd::slice::slice_to_vec(a.as_slice()) },  // Moved Permanently
        400 => { let a: [u8; 11] = [66u8, 97u8, 100u8, 32u8, 82u8, 101u8, 113u8, 117u8, 101u8, 115u8, 116u8]; vstd::slice::slice_to_vec(a.as_slice()) },  // Bad Request
        403 => { let a: [u8; 9] = [70u8, 111u8, 114u8, 98u8, 105u8, 100u8, 100u8, 101u8, 110u8]; vstd::slice::slice_to_vec(a.as_slice()) },  // Forbidden
        404 => { let a: [u8; 9] = [78u8, 111u8, 116u8, 32u8, 70u8, 111u8, 117u8, 110u8, 100u8]; vstd::slice::slice_to_vec(a.as_slice()) },  // Not Found
        405 => { let a: [u8; 18] = [77u8, 101u8, 116u8, 104u8, 111u8, 100u8, 32u8, 78u8, 111u8, 116u8, 32u8, 65u8, 108u8, 108u8, 111u8, 119u8, 101u8, 100u8]; vstd::slice::slice_to_vec(a.as_slice()) },  // Method Not Allowed
        413 => { let a: [u8; 17] = [80u8, 97u8, 121u8, 108u8, 111u8, 97u8, 100u8, 32u8, 84u8, 111u8, 111u8, 32u8, 76u8, 97u8, 114u8, 103u8, 101u8]; vstd::slice::slice_to_vec(a.as_slice()) },  // Payload Too Large
        500 => { let a: [u8; 21] = [73u8, 110u8, 116u8, 101u8, 114u8, 110u8, 97u8, 108u8, 32u8, 83u8, 101u8, 114u8, 118u8, 101u8, 114u8, 32u8, 69u8, 114u8, 114u8, 111u8, 114u8]; vstd::slice::slice_to_vec(a.as_slice()) },  // Internal Server Error
        _ => { let a: [u8; 7] = [85u8, 110u8, 107u8, 110u8, 111u8, 119u8, 110u8]; vstd::slice::slice_to_vec(a.as_slice()) },  // Unknown
    };
    proof {
        assert(v@ =~= reason_phrase(code));
    }
    v
}

} // verus!
