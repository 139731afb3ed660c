use vstd::prelude::*;
use vstd::string::StringExecFns;
use vstd::utf8::encode_utf8;
use crate::base64::{b64_encode, encode};
use crate::errors::SocketError;
use crate::sha1::{sha1, sha1_spec};
use crate::store::{is_word, word_is};
use crate::text::{chars_of, push_text, string_from};

verus! {

/// The constant that the accept token appends to the client's key.
pub open spec fn guid() -> Seq<char> {
    "258EAFA5-E914-47DA-95CA-C5AB0DC85B11"@
}

/// Position of the first `": "` in `t` from `i` on, or -1.
pub open spec fn find_sep(t: Seq<char>, i: int) -> int
    decreases t.len() - i,
{
    if i < 0 || i + 1 >= t.len() {
        -1
    } else if t[i] == ':' && t[i + 1] == ' ' {
        i
    } else {
        find_sep(t, i + 1)
    }
}

/// The value of the last header line (after the request line, among the
/// first `n` lines) whose name is `name`; a line is `name: value`.
pub open spec fn header_value(lines: Seq<String>, name: Seq<char>, n: int) -> Option<Seq<char>>
    decreases n,
{
    if n <= 1 || n > lines.len() {
        None
    } else {
        let t = lines[n - 1]@;
        let d = find_sep(t, 0);
        if d >= 0 && t.subrange(0, d) == name {
            Some(t.subrange(d + 2, t.len() as int))
        } else {
            header_value(lines, name, n - 1)
        }
    }
}

pub open spec fn contains_at(t: Seq<char>, w: Seq<char>, i: int) -> bool {
    0 <= i && i + w.len() <= t.len() && t.subrange(i, i + w.len()) == w
}

pub open spec fn contains(t: Seq<char>, w: Seq<char>) -> bool {
    exists|i: int| contains_at(t, w, i)
}

pub open spec fn bad_request() -> Seq<char> {
    "HTTP/1.1 400 Bad Request\r\n\r\n"@
}

pub open spec fn switching(accept: Seq<char>) -> Seq<char> {
    "HTTP/1.1 101 Switching Protocols\r\nUpgrade: websocket\r\nConnection: Upgrade\r\nSec-WebSocket-Accept: "@
        + accept + "\r\n\r\n"@
}

/// The accept token of a key: Base64 of the SHA-1 digest of the key and the
/// constant, as UTF-8.
pub open spec fn accept_token(key: Seq<char>) -> Seq<char> {
    b64_encode(sha1_spec(encode_utf8(key + guid())))
}

/// The reply to an upgrade request and whether the handshake succeeded. It
/// needs `Connection` to contain `Upgrade`, `Upgrade` to be `websocket` in
/// any ASCII case, and a `Sec-WebSocket-Key`.
pub open spec fn handshake_result(lines: Seq<String>) -> (Seq<char>, Result<(), SocketError>) {
    let n = lines.len() as int;
    let conn = header_value(lines, "Connection"@, n);
    let up = header_value(lines, "Upgrade"@, n);
    let key = header_value(lines, "Sec-WebSocket-Key"@, n);
    if !(conn matches Some(c) && contains(c, "Upgrade"@)) {
        (bad_request(), Err(SocketError::InvalidHandshake))
    } else if !(up matches Some(u) && is_word(u, "websocket"@)) {
        (bad_request(), Err(SocketError::InvalidHandshake))
    } else {
        match key {
            Some(k) => if encode_utf8(k + guid()).len() < 0x2000_0000_0000_0000 {
                (switching(accept_token(k)), Ok(()))
            } else {
                (bad_request(), Err(SocketError::InvalidHandshake))
            },
            None => (bad_request(), Err(SocketError::InvalidHandshake)),
        }
    }
}

proof fn lemma_find_sep_bounds(t: Seq<char>, i: int)
    requires
        0 <= i,
    ensures
        find_sep(t, i) == -1 || (i <= find_sep(t, i) && find_sep(t, i) + 1 < t.len()),
    decreases t.len() - i,
{
    if i + 1 < t.len() && !(t[i] == ':' && t[i + 1] == ' ') {
        lemma_find_sep_bounds(t, i + 1);
    }
}

fn sep_in(t: &Vec<char>) -> (r: usize)
    ensures
        r < t@.len() ==> r as int == find_sep(t@, 0),
        r >= t@.len() ==> find_sep(t@, 0) == -1,
{
    if t.len() < 2 {
        return t.len();
    }
    let mut i: usize = 0;
    while i <= t.len() - 2
        invariant
            t@.len() >= 2,
            i <= t@.len() - 1,
            find_sep(t@, 0) == find_sep(t@, i as int),
        decreases t@.len() - i,
    {
        if t[i] == ':' && t[i + 1] == ' ' {
            return i;
        }
        i = i + 1;
    }
    t.len()
}

fn find_header(lines: &Vec<String>, name: &str) -> (r: Option<String>)
    ensures
        match header_value(lines@, name@, lines@.len() as int) {
            Some(v) => r is Some && r->Some_0@ == v,
            None => r is None,
        },
{
    let want = String::from_str(name);
    let mut n: usize = lines.len();
    while n > 1
        invariant
            n <= lines@.len(),
            want@ == name@,
            header_value(lines@, name@, lines@.len() as int) == header_value(lines@, name@, n as int),
        decreases n,
    {
        let t = chars_of(lines[n - 1].as_str());
        let d = sep_in(&t);
        proof {
            lemma_find_sep_bounds(t@, 0);
        }
        if d < t.len() {
            let k = string_from(&t, 0, d);
            if k == want {
                return Some(string_from(&t, d + 2, t.len()));
            }
        }
        n = n - 1;
    }
    None
}

fn has_word(t: &Vec<char>, w: &Vec<char>) -> (r: bool)
    ensures
        r == contains(t@, w@),
{
    if w.len() > t.len() {
        assert forall|i: int| !contains_at(t@, w@, i) by {}
        return false;
    }
    let mut i: usize = 0;
    while i <= t.len() - w.len()
        invariant
            w@.len() <= t.len(),
            forall|j: int| 0 <= j < i ==> !contains_at(t@, w@, j),
        decreases t@.len() - i,
    {
        let mut k: usize = 0;
        let mut same = true;
        while k < w.len()
            invariant
                i + w@.len() <= t.len(),
                k <= w@.len(),
                same <==> (forall|m: int| 0 <= m < k ==> t@[i + m] == w@[m]),
            decreases w@.len() - k,
        {
            if t[i + k] != w[k] {
                same = false;
            }
            k = k + 1;
        }
        if same {
            assert(t@.subrange(i as int, i + w@.len()) =~= w@);
            assert(contains_at(t@, w@, i as int));
            return true;
        }
        assert(!contains_at(t@, w@, i as int)) by {
            if t@.subrange(i as int, i + w@.len()) == w@ {
                assert forall|m: int| 0 <= m < w@.len() implies t@[i + m] == w@[m] by {
                    assert(t@.subrange(i as int, i + w@.len())[m] == t@[i + m]);
                }
            }
        }
        i = i + 1;
    }
    assert forall|j: int| !contains_at(t@, w@, j) by {
        if 0 <= j && j + w@.len() <= t@.len() {
            assert(j < i);
        }
    }
    false
}

/// Answers an upgrade request, given as its lines without their line ends:
/// the response text to send back, and whether the connection may go on
/// to exchange frames.
pub fn handle_handshake(lines: &Vec<String>) -> (r: (String, Result<(), SocketError>))
    ensures
        (r.0@, r.1) == handshake_result(lines@),
{
    let bad = (String::from_str("HTTP/1.1 400 Bad Request\r\n\r\n"), Err(SocketError::InvalidHandshake));
    let conn = find_header(lines, "Connection");
    let ok_conn = match &conn {
        Some(c) => has_word(&chars_of(c.as_str()), &chars_of("Upgrade")),
        None => false,
    };
    if !ok_conn {
        return bad;
    }
    let up = find_header(lines, "Upgrade");
    let ok_up = match &up {
        Some(u) => {
            let uc = chars_of(u.as_str());
            assert(uc@.subrange(0, uc@.len() as int) =~= uc@);
            word_is(&uc, uc.len(), "websocket")
        },
        None => false,
    };
    if !ok_up {
        return bad;
    }
    match find_header(lines, "Sec-WebSocket-Key") {
        None => bad,
        Some(k) => {
            let mut text = k;
            push_text(&mut text, "258EAFA5-E914-47DA-95CA-C5AB0DC85B11");
            let bytes = text.as_str().as_bytes();
            if bytes.len() as u64 >= 0x2000_0000_0000_0000u64 {
                return bad;
            }
            let hash = sha1(bytes);
            let accept = encode(&hash);
            let mut resp = String::from_str(
                "HTTP/1.1 101 Switching Protocols\r\nUpgrade: websocket\r\nConnection: Upgrade\r\nSec-WebSocket-Accept: ",
            );
            push_text(&mut resp, accept.as_str());
            push_text(&mut resp, "\r\n\r\n");
            (resp, Ok(()))
        },
    }
}

} // verus!
