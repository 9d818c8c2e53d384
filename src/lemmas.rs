use vstd::prelude::*;

use crate::http::{
    crlf_at, ends_with_crlf, is_last_crlf, lemma_last_crlf, outcome, HttpRequest, http_1_1, is_bodiless_method, is_body_method, request_model,
    ParseError, RequestParts, first_crlf, is_first_crlf, is_white_space, last_crlf,
    lemma_first_crlf, lemma_last_crlf_at_end, line_len, request_line, word_len, words,
};

verus! {

/// A non-empty run of characters none of which is white space.
pub open spec fn is_word(w: Seq<char>) -> bool {
    w.len() > 0 && forall|i: int| 0 <= i < w.len() ==> !is_white_space(#[trigger] w[i])
}

/// The text of a request whose request line holds `method`, `target` and
/// `version`, separated by single spaces and ended by CRLF, followed by `rest`.
pub open spec fn request_text(
    method: Seq<char>,
    target: Seq<char>,
    version: Seq<char>,
    rest: Seq<char>,
) -> Seq<char> {
    method + seq![' '] + target + seq![' '] + version + seq!['\r', '\n'] + rest
}

proof fn lemma_word_len_of_word(w: Seq<char>, rest: Seq<char>)
    requires
        forall|i: int| 0 <= i < w.len() ==> !is_white_space(#[trigger] w[i]),
        rest.len() == 0 || is_white_space(rest[0]),
    ensures
        word_len(w + rest) == w.len(),
    decreases w.len(),
{
    if w.len() == 0 {
        assert(w + rest =~= rest);
    } else {
        assert((w + rest).drop_first() =~= w.drop_first() + rest);
        assert(forall|i: int|
            0 <= i < w.drop_first().len() ==> #[trigger] w.drop_first()[i] == w[i + 1]);
        lemma_word_len_of_word(w.drop_first(), rest);
    }
}

/// A word followed by white space (or by nothing) is the first word.
proof fn lemma_words_word_then(w: Seq<char>, rest: Seq<char>)
    requires
        is_word(w),
        rest.len() == 0 || is_white_space(rest[0]),
    ensures
        words(w + rest) == seq![w] + words(rest),
{
    lemma_word_len_of_word(w, rest);
    assert((w + rest).take(w.len() as int) =~= w);
    assert((w + rest).skip(w.len() as int) =~= rest);
}

/// Leading white space does not change the words.
proof fn lemma_words_white_then(c: char, rest: Seq<char>)
    requires
        is_white_space(c),
    ensures
        words(seq![c] + rest) == words(rest),
{
    assert((seq![c] + rest).drop_first() =~= rest);
}

/// A word followed by a space starts the words.
proof fn lemma_words_word_space(w: Seq<char>, tail: Seq<char>)
    requires
        is_word(w),
    ensures
        words(w + seq![' '] + tail) == seq![w] + words(tail),
{
    assert(w + seq![' '] + tail =~= w + (seq![' '] + tail));
    lemma_words_word_then(w, seq![' '] + tail);
    lemma_words_white_then(' ', tail);
}

/// A word followed by a carriage return is the only word.
proof fn lemma_words_word_cr(w: Seq<char>)
    requires
        is_word(w),
    ensures
        words(w + seq!['\r']) == seq![w],
{
    lemma_words_word_then(w, seq!['\r']);
    assert(seq!['\r'] =~= seq!['\r'] + Seq::<char>::empty());
    lemma_words_white_then('\r', Seq::empty());
    assert(seq![w] + Seq::<Seq<char>>::empty() =~= seq![w]);
}

proof fn lemma_line_len_concat(a: Seq<char>, b: Seq<char>)
    requires
        forall|i: int| 0 <= i < a.len() ==> #[trigger] a[i] != '\n',
    ensures
        line_len(a + b) == a.len() + line_len(b),
    decreases a.len(),
{
    if a.len() == 0 {
        assert(a + b =~= b);
    } else {
        assert((a + b).drop_first() =~= a.drop_first() + b);
        assert(forall|i: int|
            0 <= i < a.drop_first().len() ==> #[trigger] a.drop_first()[i] == a[i + 1]);
        lemma_line_len_concat(a.drop_first(), b);
    }
}

proof fn lemma_line_len_bound(s: Seq<char>)
    ensures
        line_len(s) <= s.len(),
        s.len() > 0 && s[0] != '\n' ==> line_len(s) >= 1,
    decreases s.len(),
{
    if s.len() > 0 && s[0] != '\n' {
        lemma_line_len_bound(s.drop_first());
    }
}

/// A line with no line feed and no carriage return, ended by CRLF and
/// followed by `rest`: that line (with its carriage return) is the request
/// line, and its CRLF is the first of the text.
proof fn lemma_line_then(line: Seq<char>, rest: Seq<char>)
    requires
        forall|i: int| 0 <= i < line.len() ==> #[trigger] line[i] != '\n' && line[i] != '\r',
    ensures
        ({
            let s = line + seq!['\r', '\n'] + rest;
            &&& request_line(s) == line + seq!['\r']
            &&& is_first_crlf(s, line.len() as int)
            &&& first_crlf(s) == line.len()
            &&& (rest.len() == 0 || ends_with_crlf(rest)) ==> ends_with_crlf(s) && last_crlf(s)
                == s.len() - 2
        }),
{
    let s = line + seq!['\r', '\n'] + rest;
    let a = line + seq!['\r'];
    assert(s =~= a + (seq!['\n'] + rest));
    assert forall|i: int| 0 <= i < a.len() implies #[trigger] a[i] != '\n' by {
        if i < line.len() {
            assert(a[i] == line[i]);
        }
    }
    lemma_line_len_concat(a, seq!['\n'] + rest);
    assert(line_len(seq!['\n'] + rest) == 0);
    assert(request_line(s) =~= a);
    assert forall|j: int| 0 <= j < line.len() implies !crlf_at(s, j) by {
        assert(s[j] == line[j]);
    }
    assert(is_first_crlf(s, line.len() as int));
    lemma_first_crlf(s, line.len() as int);
    if rest.len() == 0 || ends_with_crlf(rest) {
        if rest.len() > 0 {
            assert(s[s.len() - 2] == rest[rest.len() - 2]);
            assert(s[s.len() - 1] == rest[rest.len() - 1]);
        }
        assert(ends_with_crlf(s));
        lemma_last_crlf_at_end(s);
    }
}

spec fn no_break(s: Seq<char>) -> bool {
    forall|i: int| 0 <= i < s.len() ==> #[trigger] s[i] != '\n' && s[i] != '\r'
}

proof fn lemma_word_no_break(w: Seq<char>)
    requires
        is_word(w),
    ensures
        no_break(w),
{
    assert forall|i: int| 0 <= i < w.len() implies #[trigger] w[i] != '\n' && w[i] != '\r' by {
        assert(!is_white_space(w[i]));
    }
}

proof fn lemma_join_no_break(a: Seq<char>, b: Seq<char>)
    requires
        no_break(a),
        no_break(b),
    ensures
        no_break(a + b),
{
    assert forall|i: int| 0 <= i < (a + b).len() implies #[trigger] (a + b)[i] != '\n' && (a
        + b)[i] != '\r' by {
        if i < a.len() {
            assert((a + b)[i] == a[i]);
        } else {
            assert((a + b)[i] == b[i - a.len()]);
        }
    }
}

/// The request line of a text built by `request_text`, and where its first
/// and last CRLF stand.
proof fn lemma_request_text(m: Seq<char>, t: Seq<char>, v: Seq<char>, rest: Seq<char>)
    requires
        is_word(m),
        is_word(t),
        is_word(v),
    ensures
        ({
            let s = request_text(m, t, v, rest);
            let line = m + seq![' '] + t + seq![' '] + v;
            &&& words(request_line(s)) == seq![m, t, v]
            &&& first_crlf(s) == line.len()
            &&& (rest.len() == 0 || ends_with_crlf(rest)) ==> ends_with_crlf(s) && last_crlf(s)
                == s.len() - 2
        }),
{
    let sp = seq![' '];
    let line = m + sp + t + sp + v;
    assert(no_break(sp));
    lemma_word_no_break(m);
    lemma_word_no_break(t);
    lemma_word_no_break(v);
    lemma_join_no_break(m, sp);
    lemma_join_no_break(m + sp, t);
    lemma_join_no_break(m + sp + t, sp);
    lemma_join_no_break(m + sp + t + sp, v);
    assert(request_text(m, t, v, rest) =~= line + seq!['\r', '\n'] + rest);
    lemma_line_then(line, rest);
    assert(line + seq!['\r'] =~= m + sp + (t + sp + (v + seq!['\r'])));
    lemma_words_word_space(m, t + sp + (v + seq!['\r']));
    lemma_words_word_space(t, v + seq!['\r']);
    lemma_words_word_cr(v);
    assert(seq![m] + (seq![t] + seq![v]) =~= seq![m, t, v]);
}

/// Law: a request whose method carries no body, with a target and the
/// version `HTTP/1.1`, parses to that method, target and version and no body,
/// whatever CRLF-terminated lines follow its request line.
pub proof fn law_bodiless_request_parses(
    method: Seq<char>,
    target: Seq<char>,
    rest: Seq<char>,
)
    requires
        is_bodiless_method(method),
        is_word(target),
        rest.len() == 0 || ends_with_crlf(rest),
    ensures
        request_model(request_text(method, target, http_1_1(), rest)) == Ok::<
            RequestParts,
            ParseError,
        >(RequestParts { method, target, version: http_1_1(), body: None }),
{
    assert(is_word(method));
    assert(is_word(http_1_1()));
    lemma_request_text(method, target, http_1_1(), rest);
}

/// Law: a request whose method carries a body, with a target and the version
/// `HTTP/1.1`, parses to that method, target and version, and its body is
/// exactly what lies between the first and the last CRLF of the text: all of
/// what follows the request line but its closing CRLF.
pub proof fn law_body_request_parses(method: Seq<char>, target: Seq<char>, rest: Seq<char>)
    requires
        is_body_method(method),
        is_word(target),
        ends_with_crlf(rest),
        rest.len() > 2,
    ensures
        ({
            let s = request_text(method, target, http_1_1(), rest);
            let body = s.subrange(first_crlf(s) + 2, last_crlf(s));
            &&& is_first_crlf(s, first_crlf(s))
            &&& is_last_crlf(s, last_crlf(s))
            &&& body == rest.subrange(0, rest.len() - 2)
            &&& request_model(s) == Ok::<RequestParts, ParseError>(
                RequestParts { method, target, version: http_1_1(), body: Some(body) },
            )
        }),
{
    let s = request_text(method, target, http_1_1(), rest);
    assert(is_word(method));
    assert(is_word(http_1_1()));
    lemma_request_text(method, target, http_1_1(), rest);
    let f = first_crlf(s);
    lemma_line_then(method + seq![' '] + target + seq![' '] + http_1_1(), rest);
    lemma_last_crlf(s, s.len() - 2);
    assert(s.subrange(f + 2, last_crlf(s)) =~= rest.subrange(0, rest.len() - 2));
}

/// Law: a method outside both accepted groups is refused as unsupported,
/// whatever follows it, in any text that ends with CRLF.
pub proof fn law_unknown_method_refused(method: Seq<char>, rest: Seq<char>)
    requires
        is_word(method),
        !is_bodiless_method(method),
        !is_body_method(method),
        rest.len() == 0 || is_white_space(rest[0]),
        ends_with_crlf(method + rest),
    ensures
        request_model(method + rest) == Err::<RequestParts, ParseError>(
            ParseError::UnsupportedMethod,
        ),
{
    lemma_first_word(method, rest);
}

/// The first word of a text that starts with a word followed by white space.
proof fn lemma_first_word(m: Seq<char>, rest: Seq<char>)
    requires
        is_word(m),
        rest.len() == 0 || is_white_space(rest[0]),
    ensures
        words(request_line(m + rest)).len() > 0,
        words(request_line(m + rest))[0] == m,
{
    lemma_word_no_break(m);
    lemma_line_len_concat(m, rest);
    lemma_line_len_bound(rest);
    let r = request_line(rest);
    assert(request_line(m + rest) =~= m + r);
    if rest.len() > 0 && rest[0] != '\n' {
        assert(r[0] == rest[0]);
    }
    lemma_words_word_then(m, r);
}

/// Law: a request line whose third word is another version than `HTTP/1.1`
/// is refused as unsupported, where method and body would pass.
pub proof fn law_other_version_refused(
    method: Seq<char>,
    target: Seq<char>,
    version: Seq<char>,
    rest: Seq<char>,
)
    requires
        is_bodiless_method(method) || is_body_method(method),
        is_word(target),
        is_word(version),
        version != http_1_1(),
        rest.len() == 0 || ends_with_crlf(rest),
        is_body_method(method) ==> rest.len() > 2,
    ensures
        request_model(request_text(method, target, version, rest)) == Err::<
            RequestParts,
            ParseError,
        >(ParseError::UnsupportedVersion),
{
    assert(is_word(method));
    lemma_request_text(method, target, version, rest);
}

/// Law: a request line that holds only a method and one more word (the
/// space before the version is missing) is refused for want of a version,
/// where method and body would pass.
pub proof fn law_two_words_missing_version(
    method: Seq<char>,
    target: Seq<char>,
    rest: Seq<char>,
)
    requires
        is_bodiless_method(method) || is_body_method(method),
        is_word(target),
        rest.len() == 0 || ends_with_crlf(rest),
        is_body_method(method) ==> rest.len() > 2,
    ensures
        request_model(method + seq![' '] + target + seq!['\r', '\n'] + rest) == Err::<
            RequestParts,
            ParseError,
        >(ParseError::MissingVersion),
{
    assert(is_word(method));
    let line = method + seq![' '] + target;
    lemma_word_no_break(method);
    lemma_word_no_break(target);
    assert(no_break(seq![' ']));
    lemma_join_no_break(method, seq![' ']);
    lemma_join_no_break(method + seq![' '], target);
    assert(line + seq!['\r'] =~= method + seq![' '] + (target + seq!['\r']));
    lemma_words_word_space(method, target + seq!['\r']);
    lemma_words_word_cr(target);
    assert(seq![method] + seq![target] =~= seq![method, target]);
    lemma_line_then(line, rest);
}

/// Law: a request line that holds only a method is refused for want of a
/// target, where method and body would pass.
pub proof fn law_one_word_missing_target(method: Seq<char>, rest: Seq<char>)
    requires
        is_bodiless_method(method) || is_body_method(method),
        rest.len() == 0 || ends_with_crlf(rest),
        is_body_method(method) ==> rest.len() > 2,
    ensures
        request_model(method + seq!['\r', '\n'] + rest) == Err::<RequestParts, ParseError>(
            ParseError::MissingTarget,
        ),
{
    assert(is_word(method));
    lemma_word_no_break(method);
    lemma_words_word_cr(method);
    lemma_line_then(method, rest);
}

/// Law: a request with a method that carries a body is refused as malformed
/// where its text holds at most one CRLF: then no CRLF opens a body before
/// the one that closes the text.
pub proof fn law_single_crlf_malformed(method: Seq<char>, rest: Seq<char>)
    requires
        is_body_method(method),
        rest.len() == 0 || is_white_space(rest[0]),
        forall|i: int, j: int|
            crlf_at(method + rest, i) && crlf_at(method + rest, j) ==> i == j,
    ensures
        request_model(method + rest) == Err::<RequestParts, ParseError>(
            ParseError::MalformedRequest,
        ),
{
    let s = method + rest;
    assert(is_word(method));
    lemma_first_word(method, rest);
    if ends_with_crlf(s) {
        lemma_last_crlf_at_end(s);
        assert(is_first_crlf(s, s.len() - 2));
        lemma_first_crlf(s, s.len() - 2);
    }
}

/// Law: parsing is a function of the request text: two calls on texts with
/// the same characters have the same outcome.
pub proof fn law_parse_deterministic(
    a: &str,
    b: &str,
    ra: Result<HttpRequest, ParseError>,
    rb: Result<HttpRequest, ParseError>,
)
    requires
        a@ == b@,
        outcome(ra) == request_model(a@),
        outcome(rb) == request_model(b@),
    ensures
        outcome(ra) == outcome(rb),
{
}

} // verus!
