//! The HTTP/1.1 exchange with the sync server: the request text the client
//! sends, and how it reads the server's reply.

use vstd::prelude::*;
use vstd::utf8::encode_utf8;
use crate::error::SyncError;
use crate::text::{
    chars_of, decimal, find_char, find_text, first_index, first_match, is_white_space,
    parse_u16, parse_u16_in, push_decimal, text_of, white_space,
};

verus! {

/// The blank line that ends the head of an HTTP message.
pub open spec fn head_end() -> Seq<char> {
    seq!['\r', '\n', '\r', '\n']
}

/// The number of bytes in the UTF-8 encoding of `s`, as `str::len` reports
/// it.
pub open spec fn byte_len(s: Seq<char>) -> nat {
    (encode_utf8(s).len() as usize) as nat
}

/// The request the client sends: a request line, the `Host`, `Content-Type`,
/// `Content-Length` and `Connection` headers, a blank line, then `body`.
/// `Content-Length` counts the bytes of the body's UTF-8 encoding.
pub open spec fn request_text(
    method: Seq<char>,
    path: Seq<char>,
    host: Seq<char>,
    body: Seq<char>,
) -> Seq<char> {
    method + " "@ + path + " HTTP/1.1\r\nHost: "@ + host
        + "\r\nContent-Type: text/plain\r\nContent-Length: "@ + decimal(byte_len(body)) + "\r\nConnection: close\r\n\r\n"@ + body
}

/// The end of the run of white space that starts at `i`.
pub open spec fn space_end(s: Seq<char>, i: int) -> int
    decreases s.len() - i,
{
    if i < 0 || i >= s.len() || !is_white_space(s[i]) {
        i
    } else {
        space_end(s, i + 1)
    }
}

/// The end of the run of non-white-space characters that starts at `i`.
pub open spec fn word_end(s: Seq<char>, i: int) -> int
    decreases s.len() - i,
{
    if i < 0 || i >= s.len() || is_white_space(s[i]) {
        i
    } else {
        word_end(s, i + 1)
    }
}

/// Where a word that starts at `i` ends.
pub proof fn lemma_word_end_bounds(s: Seq<char>, i: int)
    requires
        0 <= i <= s.len(),
    ensures
        i <= word_end(s, i) <= s.len(),
        i < s.len() && !is_white_space(s[i]) ==> i < word_end(s, i),
        forall|j: int| i <= j < word_end(s, i) ==> !is_white_space(#[trigger] s[j]),
        word_end(s, i) < s.len() ==> is_white_space(s[word_end(s, i)]),
    decreases s.len() - i,
{
    if i < s.len() && !is_white_space(s[i]) {
        lemma_word_end_bounds(s, i + 1);
    }
}

/// Where a run of white space that starts at `i` ends.
pub proof fn lemma_space_end_bounds(s: Seq<char>, i: int)
    requires
        0 <= i <= s.len(),
    ensures
        i <= space_end(s, i) <= s.len(),
        forall|j: int| i <= j < space_end(s, i) ==> is_white_space(#[trigger] s[j]),
        space_end(s, i) < s.len() ==> !is_white_space(s[space_end(s, i)]),
    decreases s.len() - i,
{
    if i < s.len() && is_white_space(s[i]) {
        lemma_space_end_bounds(s, i + 1);
    }
}

/// A run of non-white-space from `i` up to white space or the end at `j`
/// ends at `j`.
pub proof fn lemma_word_end_at(s: Seq<char>, i: int, j: int)
    requires
        0 <= i <= j <= s.len(),
        forall|k: int| i <= k < j ==> !is_white_space(#[trigger] s[k]),
        j == s.len() || is_white_space(s[j]),
    ensures
        word_end(s, i) == j,
    decreases j - i,
{
    if i < j {
        lemma_word_end_at(s, i + 1, j);
    }
}

/// A run of white space from `i` up to non-white-space or the end at `j`
/// ends at `j`.
pub proof fn lemma_space_end_at(s: Seq<char>, i: int, j: int)
    requires
        0 <= i <= j <= s.len(),
        forall|k: int| i <= k < j ==> is_white_space(#[trigger] s[k]),
        j == s.len() || !is_white_space(s[j]),
    ensures
        space_end(s, i) == j,
    decreases j - i,
{
    if i < j {
        lemma_space_end_at(s, i + 1, j);
    }
}

/// The `n`-th (from zero) white-space-separated word of `s` at or after
/// position `i`, as `str::split_whitespace` yields them.
pub open spec fn word_from(s: Seq<char>, i: int, n: nat) -> Option<Seq<char>>
    decreases s.len() - i, n,
{
    if i < 0 || i > s.len() {
        None
    } else {
        let a = space_end(s, i);
        if a >= s.len() {
            None
        } else {
            let b = word_end(s, a);
            if n == 0 {
                Some(s.subrange(a, b))
            } else {
                proof {
                    lemma_space_end_bounds(s, i);
                    lemma_word_end_bounds(s, a);
                }
                word_from(s, b, (n - 1) as nat)
            }
        }
    }
}

/// The first line of `head`: everything before the first line feed.
pub open spec fn first_line(head: Seq<char>) -> Seq<char> {
    match first_index(head, '\n') {
        Some(i) => head.take(i),
        None => head,
    }
}

/// How a reply from the server is read: `Ok` with the status code and the
/// body, or `Err` with the text of the protocol error.
///
/// The head ends at the first blank line; the status code is the second
/// word of the first line of the head.
pub open spec fn parse_reply(raw: Seq<char>) -> Result<(u16, Seq<char>), Seq<char>> {
    match first_match(raw, head_end()) {
        None => Err("missing response separator"@),
        Some(k) => {
            let head = raw.take(k);
            let body = raw.skip(k + 4);
            if head.len() == 0 {
                Err("missing response status line"@)
            } else {
                match word_from(first_line(head), 0, 1) {
                    None => Err("missing response status code"@),
                    Some(code) => match parse_u16(code) {
                        None => Err("invalid response status code"@),
                        Some(status) => Ok((status, body)),
                    },
                }
            }
        },
    }
}

/// `r` is what reading `raw` gives: the response, or a protocol error.
pub open spec fn parsed_as(raw: Seq<char>, r: Result<HttpResponse, SyncError>) -> bool {
    match parse_reply(raw) {
        Ok((status, body)) => r matches Ok(resp) && resp.status == status && resp.body@ == body,
        Err(msg) => r matches Err(SyncError::Protocol(m)) && m@ == msg,
    }
}

/// The status code and body of a reply from the server.
#[derive(Debug)]
pub struct HttpResponse {
    pub status: u16,
    pub body: String,
}

/// Builds the request text for `method` on `path` at `host`, carrying `body`.
pub fn build_request(method: &str, path: &str, host: &str, body: &str) -> (r: String)
    ensures
        r@ == request_text(method@, path@, host@, body@),
{
    let mut r = String::from_str(method);
    r.append(" ");
    r.append(path);
    r.append(" HTTP/1.1\r\nHost: ");
    r.append(host);
    r.append("\r\nContent-Type: text/plain\r\nContent-Length: ");
    push_decimal(&mut r, body.len() as u64);
    r.append("\r\nConnection: close\r\n\r\n");
    r.append(body);
    r
}

/// The end of the run of white space in `v` that starts at `i`.
fn skip_space(v: &Vec<char>, i: usize) -> (r: usize)
    requires
        i <= v@.len(),
    ensures
        r == space_end(v@, i as int),
{
    let mut j = i;
    while j < v.len() && white_space(v[j])
        invariant
            i <= j <= v@.len(),
            space_end(v@, i as int) == space_end(v@, j as int),
        decreases v@.len() - j,
    {
        j += 1;
    }
    j
}

/// The end of the word in `v` that starts at `i`.
fn skip_word(v: &Vec<char>, i: usize) -> (r: usize)
    requires
        i <= v@.len(),
    ensures
        r == word_end(v@, i as int),
{
    let mut j = i;
    while j < v.len() && !white_space(v[j])
        invariant
            i <= j <= v@.len(),
            word_end(v@, i as int) == word_end(v@, j as int),
        decreases v@.len() - j,
    {
        j += 1;
    }
    j
}

/// The bounds of the second word of `v[..end]`, if there is one.
fn second_word(v: &Vec<char>, end: usize) -> (r: Option<(usize, usize)>)
    requires
        end <= v@.len(),
    ensures
        match r {
            Some((a, b)) => a <= b <= end && word_from(v@.take(end as int), 0, 1) == Some(
                v@.subrange(a as int, b as int),
            ),
            None => word_from(v@.take(end as int), 0, 1) is None,
        },
{
    let ghost s = v@.take(end as int);
    proof {
        reveal_with_fuel(word_from, 2);
    }
    let w = text_prefix(v, end);
    let a0 = skip_space(&w, 0);
    proof {
        lemma_space_end_bounds(s, 0);
    }
    if a0 >= w.len() {
        return None;
    }
    let b0 = skip_word(&w, a0);
    proof {
        lemma_word_end_bounds(s, a0 as int);
    }
    let a1 = skip_space(&w, b0);
    proof {
        lemma_space_end_bounds(s, b0 as int);
    }
    if a1 >= w.len() {
        return None;
    }
    let b1 = skip_word(&w, a1);
    proof {
        lemma_word_end_bounds(s, a1 as int);
        assert(s.subrange(a1 as int, b1 as int) =~= v@.subrange(a1 as int, b1 as int));
    }
    Some((a1, b1))
}

/// The first `end` characters of `v`.
fn text_prefix(v: &Vec<char>, end: usize) -> (r: Vec<char>)
    requires
        end <= v@.len(),
    ensures
        r@ == v@.take(end as int),
{
    let mut r: Vec<char> = Vec::new();
    let mut i: usize = 0;
    while i < end
        invariant
            i <= end <= v@.len(),
            r@ == v@.take(i as int),
        decreases end - i,
    {
        r.push(v[i]);
        i += 1;
        assert(r@ =~= v@.take(i as int));
    }
    r
}

impl HttpResponse {
    /// Reads a reply from the server.
    pub fn parse(raw: &str) -> (r: Result<HttpResponse, SyncError>)
        ensures
            parsed_as(raw@, r),
    {
        let v = chars_of(raw);
        let n = v.len();
        let sep: Vec<char> = vec!['\r', '\n', '\r', '\n'];
        assert(sep@ =~= head_end());
        let k = match find_text(&v, &sep) {
            Some(k) => k,
            None => {
                return Err(SyncError::Protocol(String::from_str("missing response separator")));
            },
        };
        assert(k + 4 <= v@.len()) by {
            let kk = choose|i: int| crate::text::is_first_match(v@, head_end(), i);
            assert(crate::text::is_first_match(v@, head_end(), kk));
        }
        let body = text_of(&v, k + 4, v.len());
        assert(body@ =~= v@.skip(k + 4));
        if k == 0 {
            return Err(SyncError::Protocol(String::from_str("missing response status line")));
        }
        let head = text_prefix(&v, k);
        let line_end = match find_char(&head, '\n') {
            Some(i) => i,
            None => k,
        };
        assert(head@.take(line_end as int) =~= first_line(v@.take(k as int))) by {
            if line_end == k {
                assert(head@.take(k as int) =~= head@);
            }
        }
        let (a, b) = match second_word(&head, line_end) {
            Some(bounds) => bounds,
            None => {
                return Err(SyncError::Protocol(String::from_str("missing response status code")));
            },
        };
        match parse_u16_in(&head, a, b) {
            Some(status) => Ok(HttpResponse { status, body }),
            None => Err(SyncError::Protocol(String::from_str("invalid response status code"))),
        }
    }
}

} // verus!
