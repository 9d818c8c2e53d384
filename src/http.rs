use vstd::prelude::*;
use vstd::string::*;

verus! {

broadcast use vstd::string::group_string_axioms;

/// Unicode's `White_Space` property, as `char::is_whitespace` tests it: the
/// characters that separate the words of a request line.
pub open spec fn is_white_space(c: char) -> bool {
    ('\u{9}' <= c && c <= '\u{d}') || c == ' ' || c == '\u{85}' || c == '\u{a0}'
        || c == '\u{1680}' || ('\u{2000}' <= c && c <= '\u{200a}') || c == '\u{2028}'
        || c == '\u{2029}' || c == '\u{202f}' || c == '\u{205f}' || c == '\u{3000}'
}

/// Length of the leading run of `s` that holds no line feed.
pub open spec fn line_len(s: Seq<char>) -> nat
    decreases s.len(),
{
    if s.len() == 0 || s[0] == '\n' {
        0
    } else {
        1 + line_len(s.drop_first())
    }
}

/// The request line: everything before the first line feed (all of `s` if it
/// holds none). A carriage return that ends it is white space, so it never
/// reaches a word.
pub open spec fn request_line(s: Seq<char>) -> Seq<char> {
    s.take(line_len(s) as int)
}

/// Length of the leading run of `s` that holds no white space.
pub open spec fn word_len(s: Seq<char>) -> nat
    decreases s.len(),
{
    if s.len() == 0 || is_white_space(s[0]) {
        0
    } else {
        1 + word_len(s.drop_first())
    }
}

/// The words of `s`: its maximal non-empty runs of characters that are not
/// white space, in order.
pub open spec fn words(s: Seq<char>) -> Seq<Seq<char>>
    decreases s.len(),
    via words_decreases
{
    if s.len() == 0 {
        Seq::empty()
    } else if is_white_space(s[0]) {
        words(s.drop_first())
    } else {
        seq![s.take(word_len(s) as int)] + words(s.skip(word_len(s) as int))
    }
}

#[via_fn]
proof fn words_decreases(s: Seq<char>) {
    lemma_word_len_bound(s);
}

proof fn lemma_word_len_bound(s: Seq<char>)
    ensures
        word_len(s) <= s.len(),
        s.len() > 0 && !is_white_space(s[0]) ==> word_len(s) >= 1,
    decreases s.len(),
{
    if s.len() > 0 && !is_white_space(s[0]) {
        lemma_word_len_bound(s.drop_first());
    }
}

/// A carriage return followed by a line feed starts at index `i` of `s`.
pub open spec fn crlf_at(s: Seq<char>, i: int) -> bool {
    0 <= i && i + 1 < s.len() && s[i] == '\r' && s[i + 1] == '\n'
}

pub open spec fn is_first_crlf(s: Seq<char>, i: int) -> bool {
    crlf_at(s, i) && forall|j: int| 0 <= j < i ==> !crlf_at(s, j)
}

pub open spec fn is_last_crlf(s: Seq<char>, i: int) -> bool {
    crlf_at(s, i) && forall|j: int| i < j ==> !crlf_at(s, j)
}

/// Where the first CRLF of `s` starts (meaningful only where `s` holds one).
pub open spec fn first_crlf(s: Seq<char>) -> int {
    choose|i: int| is_first_crlf(s, i)
}

/// Where the last CRLF of `s` starts (meaningful only where `s` holds one).
pub open spec fn last_crlf(s: Seq<char>) -> int {
    choose|i: int| is_last_crlf(s, i)
}

pub open spec fn ends_with_crlf(s: Seq<char>) -> bool {
    crlf_at(s, s.len() - 2)
}

/// The methods whose requests carry no body.
pub open spec fn is_bodiless_method(m: Seq<char>) -> bool {
    ||| m == seq!['G', 'E', 'T']
    ||| m == seq!['H', 'E', 'A', 'D']
    ||| m == seq!['D', 'E', 'L', 'E', 'T', 'E']
    ||| m == seq!['C', 'O', 'N', 'N', 'E', 'C', 'T']
    ||| m == seq!['O', 'P', 'T', 'I', 'O', 'N', 'S']
    ||| m == seq!['T', 'R', 'A', 'C', 'E']
}

/// The methods whose requests carry a body.
pub open spec fn is_body_method(m: Seq<char>) -> bool {
    ||| m == seq!['P', 'O', 'S', 'T']
    ||| m == seq!['P', 'U', 'T']
    ||| m == seq!['P', 'A', 'T', 'C', 'H']
}

/// The one protocol version accepted.
pub open spec fn http_1_1() -> Seq<char> {
    seq!['H', 'T', 'T', 'P', '/', '1', '.', '1']
}

/// Why a request was refused.
#[derive(Debug, Clone, Copy, PartialEq, Eq, Structural)]
pub enum ParseError {
    /// The request line holds no word.
    MissingMethod,
    /// The method is none of the accepted ones.
    UnsupportedMethod,
    /// The request does not end with CRLF, or a method that carries a body
    /// leaves no room for one between the first and the last CRLF.
    MalformedRequest,
    /// The request line has no second word.
    MissingTarget,
    /// The request line has no third word.
    MissingVersion,
    /// The third word of the request line is not `HTTP/1.1`.
    UnsupportedVersion,
}

/// A parsed request. Every part borrows from the request text.
pub struct HttpRequest<'a> {
    /// The first word of the request line.
    pub http_method: &'a str,
    /// The second word of the request line, as written.
    pub uri: &'a str,
    /// The third word of the request line.
    pub http_version: &'a str,
    /// For a method that carries a body, the text between the first and the
    /// last CRLF of the request; `None` for the others.
    pub body: Option<&'a str>,
}

/// What an `HttpRequest` holds, as character sequences.
pub struct RequestParts {
    pub method: Seq<char>,
    pub target: Seq<char>,
    pub version: Seq<char>,
    pub body: Option<Seq<char>>,
}

impl<'a> View for HttpRequest<'a> {
    type V = RequestParts;

    open spec fn view(&self) -> RequestParts {
        RequestParts {
            method: self.http_method@,
            target: self.uri@,
            version: self.http_version@,
            body: match self.body {
                Some(b) => Some(b@),
                None => None,
            },
        }
    }
}

/// The outcome of parsing the request text `s`. The checks run in a fixed
/// order and the first that fails decides the error.
pub open spec fn request_model(s: Seq<char>) -> Result<RequestParts, ParseError> {
    let w = words(request_line(s));
    if w.len() == 0 {
        Err(ParseError::MissingMethod)
    } else if !ends_with_crlf(s) {
        Err(ParseError::MalformedRequest)
    } else if !is_bodiless_method(w[0]) && !is_body_method(w[0]) {
        Err(ParseError::UnsupportedMethod)
    } else if is_body_method(w[0]) && first_crlf(s) + 2 >= last_crlf(s) {
        Err(ParseError::MalformedRequest)
    } else if w.len() < 2 {
        Err(ParseError::MissingTarget)
    } else if w.len() < 3 {
        Err(ParseError::MissingVersion)
    } else if w[2] != http_1_1() {
        Err(ParseError::UnsupportedVersion)
    } else {
        Ok(
            RequestParts {
                method: w[0],
                target: w[1],
                version: w[2],
                body: if is_body_method(w[0]) {
                    Some(s.subrange(first_crlf(s) + 2, last_crlf(s)))
                } else {
                    None
                },
            },
        )
    }
}

/// The outcome of a call of `parse_request`, as character sequences.
pub open spec fn outcome(r: Result<HttpRequest, ParseError>) -> Result<RequestParts, ParseError> {
    match r {
        Ok(q) => Ok(q@),
        Err(e) => Err(e),
    }
}

pub proof fn lemma_first_crlf(s: Seq<char>, i: int)
    requires
        is_first_crlf(s, i),
    ensures
        first_crlf(s) == i,
{
    let k = first_crlf(s);
    assert(is_first_crlf(s, k));
    assert(!(k < i) && !(i < k));
}

pub proof fn lemma_last_crlf(s: Seq<char>, i: int)
    requires
        is_last_crlf(s, i),
    ensures
        last_crlf(s) == i,
{
    let k = last_crlf(s);
    assert(is_last_crlf(s, k));
    assert(!(k < i) && !(i < k));
}

/// A request that ends with CRLF has its last CRLF at its end.
pub proof fn lemma_last_crlf_at_end(s: Seq<char>)
    requires
        ends_with_crlf(s),
    ensures
        last_crlf(s) == s.len() - 2,
{
    lemma_last_crlf(s, s.len() - 2);
}

/// Relies on `char::is_whitespace`: true exactly for the characters with
/// Unicode's `White_Space` property.
#[verifier::external_body]
fn char_is_whitespace(c: char) -> (r: bool)
    ensures
        r == is_white_space(c),
{
    c.is_whitespace()
}

/// The characters of `s`, in order.
fn chars_of(s: &str) -> (r: Vec<char>)
    ensures
        r@ == s@,
{
    let mut r: Vec<char> = Vec::new();
    for c in it: s.chars()
        invariant
            r@ == it.seq().take(it.index() as int),
    {
        r.push(c);
    }
    r
}

/// Index of the first line feed in `s`, or its length where it holds none.
fn line_end(s: &Vec<char>) -> (r: usize)
    ensures
        r == line_len(s@),
        r <= s.len(),
{
    let mut i: usize = 0;
    assert(s@.skip(0) =~= s@);
    while i < s.len() && s[i] != '\n'
        invariant
            i <= s.len(),
            line_len(s@) == i + line_len(s@.skip(i as int)),
        decreases s.len() - i,
    {
        assert(s@.skip(i as int).drop_first() =~= s@.skip(i + 1));
        i = i + 1;
    }
    i
}

/// Finds the first word of `s[from..end]`: its bounds, or `None` where that
/// part of `s` holds only white space.
fn next_word(s: &Vec<char>, from: usize, end: usize) -> (r: Option<(usize, usize)>)
    requires
        from <= end <= s.len(),
    ensures
        match r {
            None => words(s@.subrange(from as int, end as int)).len() == 0,
            Some((a, b)) => {
                &&& from <= a < b <= end
                &&& words(s@.subrange(from as int, end as int)) == seq![
                    s@.subrange(a as int, b as int),
                ] + words(s@.subrange(b as int, end as int))
            },
        },
{
    let mut a: usize = from;
    while a < end && char_is_whitespace(s[a])
        invariant
            from <= a <= end <= s.len(),
            words(s@.subrange(from as int, end as int)) == words(
                s@.subrange(a as int, end as int),
            ),
        decreases end - a,
    {
        assert(s@.subrange(a as int, end as int).drop_first() =~= s@.subrange(
            a + 1,
            end as int,
        ));
        a = a + 1;
    }
    if a == end {
        return None;
    }
    let mut b: usize = a;
    while b < end && !char_is_whitespace(s[b])
        invariant
            a <= b <= end <= s.len(),
            word_len(s@.subrange(a as int, end as int)) == (b - a) + word_len(
                s@.subrange(b as int, end as int),
            ),
        decreases end - b,
    {
        assert(s@.subrange(b as int, end as int).drop_first() =~= s@.subrange(
            b + 1,
            end as int,
        ));
        b = b + 1;
    }
    proof {
        let w = s@.subrange(a as int, end as int);
        assert(word_len(w) == b - a);
        assert(w.take(b - a) =~= s@.subrange(a as int, b as int));
        assert(w.skip(b - a) =~= s@.subrange(b as int, end as int));
    }
    Some((a, b))
}

/// Index of the first CRLF in `s`, or `None` where it holds none.
fn find_first_crlf(s: &Vec<char>) -> (r: Option<usize>)
    ensures
        match r {
            Some(i) => is_first_crlf(s@, i as int),
            None => forall|j: int| !crlf_at(s@, j),
        },
{
    let mut i: usize = 0;
    while i < s.len() && i + 1 < s.len()
        invariant
            forall|j: int| 0 <= j < i ==> !crlf_at(s@, j),
        decreases s.len() - i,
    {
        if s[i] == '\r' && s[i + 1] == '\n' {
            return Some(i);
        }
        i = i + 1;
    }
    None
}

/// Whether `s[from..to]` is exactly `word`.
fn span_is(s: &Vec<char>, from: usize, to: usize, word: &[char]) -> (r: bool)
    requires
        from <= to <= s.len(),
    ensures
        r == (s@.subrange(from as int, to as int) == word@),
{
    if to - from != word.len() {
        return false;
    }
    let mut k: usize = 0;
    while k < word.len()
        invariant
            to - from == word.len(),
            from <= to <= s.len(),
            k <= word.len(),
            forall|j: int| 0 <= j < k ==> s@[from + j] == word@[j],
        decreases word.len() - k,
    {
        if s[from + k] != word[k] {
            assert(s@.subrange(from as int, to as int)[k as int] != word@[k as int]);
            return false;
        }
        k = k + 1;
    }
    assert(s@.subrange(from as int, to as int) =~= word@);
    true
}

/// Whether the method `s[from..to]` carries a body: `Some(false)` for one
/// that does not, `Some(true)` for one that does, `None` for any other word.
fn method_takes_body(s: &Vec<char>, from: usize, to: usize) -> (r: Option<bool>)
    requires
        from <= to <= s.len(),
    ensures
        ({
            let m = s@.subrange(from as int, to as int);
            r == if is_bodiless_method(m) {
                Some(false)
            } else if is_body_method(m) {
                Some(true)
            } else {
                None
            }
        }),
{
    let get = ['G', 'E', 'T'];
    let head = ['H', 'E', 'A', 'D'];
    let delete = ['D', 'E', 'L', 'E', 'T', 'E'];
    let connect = ['C', 'O', 'N', 'N', 'E', 'C', 'T'];
    let options = ['O', 'P', 'T', 'I', 'O', 'N', 'S'];
    let trace = ['T', 'R', 'A', 'C', 'E'];
    let post = ['P', 'O', 'S', 'T'];
    let put = ['P', 'U', 'T'];
    let patch = ['P', 'A', 'T', 'C', 'H'];
    proof {
        assert(get@ =~= seq!['G', 'E', 'T']);
        assert(head@ =~= seq!['H', 'E', 'A', 'D']);
        assert(delete@ =~= seq!['D', 'E', 'L', 'E', 'T', 'E']);
        assert(connect@ =~= seq!['C', 'O', 'N', 'N', 'E', 'C', 'T']);
        assert(options@ =~= seq!['O', 'P', 'T', 'I', 'O', 'N', 'S']);
        assert(trace@ =~= seq!['T', 'R', 'A', 'C', 'E']);
        assert(post@ =~= seq!['P', 'O', 'S', 'T']);
        assert(put@ =~= seq!['P', 'U', 'T']);
        assert(patch@ =~= seq!['P', 'A', 'T', 'C', 'H']);
    }
    if span_is(s, from, to, &get) || span_is(s, from, to, &head) || span_is(s, from, to, &delete)
        || span_is(s, from, to, &connect) || span_is(s, from, to, &options) || span_is(
        s,
        from,
        to,
        &trace,
    ) {
        Some(false)
    } else if span_is(s, from, to, &post) || span_is(s, from, to, &put) || span_is(
        s,
        from,
        to,
        &patch,
    ) {
        Some(true)
    } else {
        None
    }
}

/// Parses the text of an HTTP/1.1 request into its method, target, version
/// and, for `POST`, `PUT` and `PATCH`, its body: what lies between the first
/// and the last CRLF of the request.
pub fn parse_request(request: &str) -> (r: Result<HttpRequest<'_>, ParseError>)
    ensures
        outcome(r) == request_model(request@),
{
    let s = chars_of(request);
    let n = line_end(&s);
    assert(request_line(s@) =~= s@.subrange(0, n as int));
    let (m0, m1) = match next_word(&s, 0, n) {
        Some(w) => w,
        None => return Err(ParseError::MissingMethod),
    };
    let len = s.len();
    if !(len >= 2 && s[len - 2] == '\r' && s[len - 1] == '\n') {
        return Err(ParseError::MalformedRequest);
    }
    let takes_body = match method_takes_body(&s, m0, m1) {
        Some(b) => b,
        None => return Err(ParseError::UnsupportedMethod),
    };
    let mut body: Option<&str> = None;
    if takes_body {
        let first = match find_first_crlf(&s) {
            Some(i) => i,
            None => return Err(ParseError::MalformedRequest),
        };
        // The request ends with CRLF, so its last CRLF starts two from the end.
        let start = first + 2;
        let end = len - 2;
        proof {
            lemma_first_crlf(s@, first as int);
            lemma_last_crlf_at_end(s@);
        }
        if start >= end {
            return Err(ParseError::MalformedRequest);
        }
        body = Some(request.substring_char(start, end));
    }
    let (t0, t1) = match next_word(&s, m1, n) {
        Some(w) => w,
        None => return Err(ParseError::MissingTarget),
    };
    let (v0, v1) = match next_word(&s, t1, n) {
        Some(w) => w,
        None => return Err(ParseError::MissingVersion),
    };
    let version = ['H', 'T', 'T', 'P', '/', '1', '.', '1'];
    assert(version@ =~= http_1_1());
    if !span_is(&s, v0, v1, &version) {
        return Err(ParseError::UnsupportedVersion);
    }
    Ok(
        HttpRequest {
            http_method: request.substring_char(m0, m1),
            uri: request.substring_char(t0, t1),
            http_version: request.substring_char(v0, v1),
            body,
        },
    )
}

} // verus!
