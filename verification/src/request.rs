//! The request parser: turns the raw bytes read from a connection into a
//! structured request.
//!
//! The caller reads one bounded chunk from the connection and hands it in.
//! The header block must end with the four bytes `\r\n\r\n` inside that
//! chunk, or parsing fails.  The first line splits on ASCII whitespace into
//! method, path and version, missing fields defaulting to empty.  Each later
//! line up to the first blank line becomes a header entry when it splits on
//! the two-byte separator `": "` into exactly two parts; other lines are
//! dropped.  The body is exactly `Content-Length` bytes: what follows the
//! header block in the chunk, completed by the extra bytes the caller read
//! afterwards (`required_body_bytes` says how many), and truncated to the
//! declared length.

use crate::text::{
    append_bytes, copy_bytes, copy_range, eq_ignore_ascii, eq_ignore_case, is_ws, pairs_view,
    parse_usize, seqs_view, spec_parse_usize, trim, trim_bytes, COLON, CR, LF, SP,
};
use vstd::prelude::*;
use vstd::utf8::encode_utf8;

verus! {

/// Why a raw chunk could not be parsed: the header block never ends inside
/// it, either because the request is malformed or because the stream gave
/// no data at all.
#[derive(Clone, Copy, Debug, PartialEq, Eq, Structural)]
pub enum ParseError {
    InvalidRequest,
}

/// A parsed HTTP request.  `headers` keeps every well-formed header line in
/// arrival order, duplicates included; `body` holds exactly the declared
/// `Content-Length` bytes once the parse is complete.
pub struct Request {
    pub method: Vec<u8>,
    pub path: Vec<u8>,
    pub version: Vec<u8>,
    pub headers: Vec<(Vec<u8>, Vec<u8>)>,
    pub body: Vec<u8>,
}

/// The mathematical shape of a parsed request.
pub struct RequestModel {
    pub method: Seq<u8>,
    pub path: Seq<u8>,
    pub version: Seq<u8>,
    pub headers: Seq<(Seq<u8>, Seq<u8>)>,
    pub body: Seq<u8>,
}

impl View for Request {
    type V = RequestModel;

    open spec fn view(&self) -> RequestModel {
        RequestModel {
            method: self.method@,
            path: self.path@,
            version: self.version@,
            headers: pairs_view(self.headers@),
            body: self.body@,
        }
    }
}

/// The position just after the first `\r\n\r\n` at or beyond `i`.
pub open spec fn spec_header_end_from(s: Seq<u8>, i: int) -> Option<int>
    decreases s.len() - i,
{
    if i < 0 || i + 4 > s.len() {
        Option::<int>::None
    } else if s[i] == CR && s[i + 1] == LF && s[i + 2] == CR && s[i + 3] == LF {
        Option::Some(i + 4)
    } else {
        spec_header_end_from(s, i + 1)
    }
}

/// The position just after the first `\r\n\r\n` in `s`: the boundary
/// between the header block and the body.
pub open spec fn spec_header_end(s: Seq<u8>) -> Option<int> {
    spec_header_end_from(s, 0)
}

/// A line with one trailing carriage return removed, as text split on line
/// feeds leaves it.
pub open spec fn strip_cr(line: Seq<u8>) -> Seq<u8> {
    if line.len() > 0 && line.last() == CR {
        line.drop_last()
    } else {
        line
    }
}

/// Splits `s` into lines at line feeds, stripping one carriage return
/// before each line feed, with `cur` the partial line already scanned.  A
/// final segment is a line only when it is not empty.
pub open spec fn lines_acc(s: Seq<u8>, cur: Seq<u8>) -> Seq<Seq<u8>>
    decreases s.len(),
{
    if s.len() == 0 {
        if cur.len() == 0 {
            Seq::<Seq<u8>>::empty()
        } else {
            seq![cur]
        }
    } else if s[0] == LF {
        seq![strip_cr(cur)] + lines_acc(s.skip(1), Seq::<u8>::empty())
    } else {
        lines_acc(s.skip(1), cur.push(s[0]))
    }
}

/// The lines of `s`.
pub open spec fn spec_lines(s: Seq<u8>) -> Seq<Seq<u8>> {
    lines_acc(s, Seq::<u8>::empty())
}

/// Splits `s` into the runs of bytes between ASCII whitespace, with `cur`
/// the partial run already scanned.
pub open spec fn tokens_acc(s: Seq<u8>, cur: Seq<u8>) -> Seq<Seq<u8>>
    decreases s.len(),
{
    if s.len() == 0 {
        if cur.len() == 0 {
            Seq::<Seq<u8>>::empty()
        } else {
            seq![cur]
        }
    } else if is_ws(s[0]) {
        if cur.len() == 0 {
            tokens_acc(s.skip(1), Seq::<u8>::empty())
        } else {
            seq![cur] + tokens_acc(s.skip(1), Seq::<u8>::empty())
        }
    } else {
        tokens_acc(s.skip(1), cur.push(s[0]))
    }
}

/// The whitespace-separated fields of `s`.
pub open spec fn spec_split_ws(s: Seq<u8>) -> Seq<Seq<u8>> {
    tokens_acc(s, Seq::<u8>::empty())
}

/// The method, path and version fields of a request line: its first three
/// whitespace-separated fields, missing ones empty.
pub open spec fn spec_request_fields(line: Seq<u8>) -> (Seq<u8>, Seq<u8>, Seq<u8>) {
    let parts = spec_split_ws(line);
    (
        if parts.len() > 0 {
            parts[0]
        } else {
            Seq::<u8>::empty()
        },
        if parts.len() > 1 {
            parts[1]
        } else {
            Seq::<u8>::empty()
        },
        if parts.len() > 2 {
            parts[2]
        } else {
            Seq::<u8>::empty()
        },
    )
}

/// Splits `s` at each non-overlapping occurrence of the two-byte separator
/// `": "`, with `cur` the partial part already scanned.
pub open spec fn parts_acc(s: Seq<u8>, cur: Seq<u8>) -> Seq<Seq<u8>>
    decreases s.len(),
{
    if s.len() >= 2 && s[0] == COLON && s[1] == SP {
        seq![cur] + parts_acc(s.skip(2), Seq::<u8>::empty())
    } else if s.len() == 0 {
        seq![cur]
    } else {
        parts_acc(s.skip(1), cur.push(s[0]))
    }
}

/// The parts of `s` around the separator `": "`; always at least one.
pub open spec fn spec_header_parts(s: Seq<u8>) -> Seq<Seq<u8>> {
    parts_acc(s, Seq::<u8>::empty())
}

/// The header entry a line yields: its two parts around `": "`, or nothing
/// when the split does not give exactly two.
pub open spec fn spec_header_entry(line: Seq<u8>) -> Option<(Seq<u8>, Seq<u8>)> {
    let parts = spec_header_parts(line);
    if parts.len() == 2 {
        Option::Some((parts[0], parts[1]))
    } else {
        Option::<(Seq<u8>, Seq<u8>)>::None
    }
}

/// The header entries of a run of lines, up to the first line that is blank
/// after trimming; lines that yield no entry are dropped.
pub open spec fn spec_header_list(ls: Seq<Seq<u8>>) -> Seq<(Seq<u8>, Seq<u8>)>
    decreases ls.len(),
{
    if ls.len() == 0 {
        Seq::<(Seq<u8>, Seq<u8>)>::empty()
    } else if trim_bytes(ls[0]).len() == 0 {
        Seq::<(Seq<u8>, Seq<u8>)>::empty()
    } else {
        match spec_header_entry(ls[0]) {
            Option::Some(kv) => seq![kv] + spec_header_list(ls.skip(1)),
            Option::None => spec_header_list(ls.skip(1)),
        }
    }
}

/// The header entries of a header block's lines: everything after the
/// request line, up to the first blank line.
pub open spec fn spec_parse_headers(ls: Seq<Seq<u8>>) -> Seq<(Seq<u8>, Seq<u8>)> {
    if ls.len() == 0 {
        Seq::<(Seq<u8>, Seq<u8>)>::empty()
    } else {
        spec_header_list(ls.skip(1))
    }
}

/// The value of the first header whose key is `Content-Length` up to ASCII
/// case.
pub open spec fn spec_find_content_length(headers: Seq<(Seq<u8>, Seq<u8>)>) -> Option<Seq<u8>>
    decreases headers.len(),
{
    if headers.len() == 0 {
        Option::<Seq<u8>>::None
    } else if eq_ignore_case(headers[0].0, encode_utf8("Content-Length"@)) {
        Option::Some(headers[0].1)
    } else {
        spec_find_content_length(headers.skip(1))
    }
}

/// The declared body length: the first `Content-Length` header's value read
/// as a decimal number, zero when the header is absent or its value does
/// not parse.
pub open spec fn spec_content_length(headers: Seq<(Seq<u8>, Seq<u8>)>) -> nat {
    match spec_find_content_length(headers) {
        Option::Some(v) => match spec_parse_usize(v) {
            Option::Some(n) => n,
            Option::None => 0,
        },
        Option::None => 0,
    }
}

/// The declared body length of the request in `buffer`, zero when the
/// header block never ends.
pub open spec fn spec_buffer_content_length(buffer: Seq<u8>) -> nat {
    match spec_header_end(buffer) {
        Option::Some(p) => spec_content_length(
            spec_parse_headers(spec_lines(buffer.subrange(0, p))),
        ),
        Option::None => 0,
    }
}

/// How many bytes beyond `buffer` the declared body still needs: the
/// declared length less what already follows the header block.
pub open spec fn spec_required_extra(buffer: Seq<u8>) -> Option<nat> {
    match spec_header_end(buffer) {
        Option::Some(p) => {
            let fragment_len = buffer.len() - p;
            let cl = spec_buffer_content_length(buffer);
            if cl > fragment_len {
                Option::Some((cl - fragment_len) as nat)
            } else {
                Option::Some(0nat)
            }
        },
        Option::None => Option::<nat>::None,
    }
}

/// The request that `buffer`, completed by `extra`, parses to; nothing when
/// the header block never ends inside `buffer`.
pub open spec fn spec_parse(buffer: Seq<u8>, extra: Seq<u8>) -> Option<RequestModel> {
    match spec_header_end(buffer) {
        Option::Some(p) => {
            let head = buffer.subrange(0, p);
            let fragment = buffer.subrange(p, buffer.len() as int);
            let ls = spec_lines(head);
            let first = if ls.len() > 0 {
                ls[0]
            } else {
                Seq::<u8>::empty()
            };
            let fields = spec_request_fields(first);
            let headers = spec_parse_headers(ls);
            let cl = spec_content_length(headers);
            let data = fragment + extra;
            let body_len = if cl <= data.len() {
                cl as int
            } else {
                data.len() as int
            };
            Option::Some(
                RequestModel {
                    method: fields.0,
                    path: fields.1,
                    version: fields.2,
                    headers: headers,
                    body: data.take(body_len),
                },
            )
        },
        Option::None => Option::<RequestModel>::None,
    }
}

/// Where `spec_header_end_from` points, at least four bytes stand before
/// it and it does not pass the end of the data.
pub proof fn lemma_header_end_from_bounds(s: Seq<u8>, i: int)
    ensures
        spec_header_end_from(s, i) matches Option::Some(p) ==> i + 4 <= p <= s.len(),
    decreases s.len() - i,
{
    if !(i < 0 || i + 4 > s.len()) {
        if !(s[i] == CR && s[i + 1] == LF && s[i + 2] == CR && s[i + 3] == LF) {
            lemma_header_end_from_bounds(s, i + 1);
        }
    }
}

/// When the header block ends inside the chunk and the caller supplies
/// exactly the bytes still required, parsing succeeds and the body holds
/// exactly the declared `Content-Length` bytes.
pub proof fn lemma_parse_completes(buffer: Seq<u8>, extra: Seq<u8>)
    requires
        spec_required_extra(buffer) matches Option::Some(need) && extra.len() == need,
    ensures
        spec_parse(buffer, extra) matches Option::Some(m) && m.body.len()
            == spec_buffer_content_length(buffer) && m.headers == spec_parse_headers(
            spec_lines(buffer.subrange(0, spec_header_end(buffer).unwrap())),
        ),
{
    let p = spec_header_end(buffer).unwrap();
    lemma_header_end_from_bounds(buffer, 0);
    let fragment = buffer.subrange(p, buffer.len() as int);
    let cl = spec_buffer_content_length(buffer);
    let data = fragment + extra;
    if cl > fragment.len() {
        assert(data.len() == cl);
        assert(data.take(cl as int).len() == cl);
    } else {
        assert(data.take(cl as int).len() == cl);
    }
}

/// Finds where the header block ends: the position just after the first
/// `\r\n\r\n`.
pub fn get_final_position_of_headers(buffer: &[u8]) -> (r: Option<usize>)
    ensures
        match spec_header_end(buffer@) {
            Option::Some(p) => r == Option::Some(p as usize),
            Option::None => r == Option::<usize>::None,
        },
{
    let n: usize = buffer.len();
    if n < 4 {
        return None;
    }
    let mut i: usize = 0;
    while i <= n - 4
        invariant
            0 <= i <= n - 3,
            n == buffer@.len(),
            n >= 4,
            spec_header_end(buffer@) == spec_header_end_from(buffer@, i as int),
        decreases n - i,
    {
        if buffer[i] == CR && buffer[i + 1] == LF && buffer[i + 2] == CR && buffer[i + 3] == LF {
            return Some(i + 4);
        }
        i = i + 1;
    }
    None
}

/// Splits the chunk at the end of the header block into the header bytes
/// (boundary included) and the initial body fragment; fails when the
/// header block never ends inside the chunk.
pub fn split_buffer(buffer: &[u8]) -> (r: Result<(Vec<u8>, Vec<u8>), ParseError>)
    ensures
        match spec_header_end(buffer@) {
            Option::Some(p) => r matches Ok(hb) && hb.0@ == buffer@.subrange(0, p) && hb.1@
                == buffer@.subrange(p, buffer@.len() as int),
            Option::None => r == Result::<(Vec<u8>, Vec<u8>), ParseError>::Err(
                ParseError::InvalidRequest,
            ),
        },
{
    match get_final_position_of_headers(buffer) {
        Some(p) => {
            proof {
                lemma_header_end_from_bounds(buffer@, 0);
            }
            let head = copy_range(buffer, 0, p);
            let fragment = copy_range(buffer, p, buffer.len());
            Ok((head, fragment))
        },
        None => Err(ParseError::InvalidRequest),
    }
}

/// Splits the header bytes into lines, as the lines of the decoded text.
pub fn split_lines(head: &[u8]) -> (r: Vec<Vec<u8>>)
    ensures
        seqs_view(r@) == spec_lines(head@),
{
    let n: usize = head.len();
    let mut out: Vec<Vec<u8>> = Vec::new();
    let mut cur: Vec<u8> = Vec::new();
    proof {
        assert(head@.skip(0) =~= head@);
        assert(seqs_view(out@) =~= Seq::<Seq<u8>>::empty());
    }
    let mut i: usize = 0;
    while i < n
        invariant
            0 <= i <= n,
            n == head@.len(),
            spec_lines(head@) == seqs_view(out@) + lines_acc(head@.skip(i as int), cur@),
        decreases n - i,
    {
        let b = head[i];
        proof {
            assert(head@.skip(i as int)[0] == head@[i as int]);
            assert(head@.skip(i as int).skip(1) =~= head@.skip(i + 1));
        }
        if b == LF {
            let ghost cur_before = cur@;
            if cur.len() > 0 && cur[cur.len() - 1] == CR {
                let _dropped = cur.pop();
                proof {
                    assert(cur@ =~= strip_cr(cur_before));
                }
            }
            proof {
                assert(cur@ == strip_cr(cur_before));
            }
            out.push(cur);
            cur = Vec::new();
            proof {
                assert(seqs_view(out@) =~= seqs_view(out@.drop_last()) + seq![
                    strip_cr(cur_before),
                ]);
                assert(seqs_view(out@.drop_last()) + seq![strip_cr(cur_before)] + lines_acc(
                    head@.skip(i + 1),
                    Seq::<u8>::empty(),
                ) =~= seqs_view(out@.drop_last()) + (seq![strip_cr(cur_before)] + lines_acc(
                    head@.skip(i + 1),
                    Seq::<u8>::empty(),
                )));
            }
        } else {
            cur.push(b);
        }
        i = i + 1;
    }
    proof {
        assert(head@.skip(n as int) =~= Seq::<u8>::empty());
    }
    if cur.len() > 0 {
        out.push(cur);
        proof {
            assert(seqs_view(out@) =~= seqs_view(out@.drop_last()) + seq![out@.last()@]);
        }
    }
    proof {
        assert(seqs_view(out@) + Seq::<Seq<u8>>::empty() =~= seqs_view(out@));
    }
    out
}

/// Splits a line at each `": "` separator.
pub fn split_header_parts(line: &[u8]) -> (r: Vec<Vec<u8>>)
    ensures
        seqs_view(r@) == spec_header_parts(line@),
{
    let n: usize = line.len();
    let mut out: Vec<Vec<u8>> = Vec::new();
    let mut cur: Vec<u8> = Vec::new();
    proof {
        assert(line@.skip(0) =~= line@);
        assert(seqs_view(out@) =~= Seq::<Seq<u8>>::empty());
    }
    let mut i: usize = 0;
    while i < n
        invariant
            0 <= i <= n,
            n == line@.len(),
            spec_header_parts(line@) == seqs_view(out@) + parts_acc(line@.skip(i as int), cur@),
        decreases n - i,
    {
        proof {
            assert(line@.skip(i as int)[0] == line@[i as int]);
            if i + 1 < n {
                assert(line@.skip(i as int)[1] == line@[i + 1]);
                assert(line@.skip(i as int).skip(2) =~= line@.skip(i + 2));
            }
            assert(line@.skip(i as int).skip(1) =~= line@.skip(i + 1));
        }
        if i + 1 < n && line[i] == COLON && line[i + 1] == SP {
            let ghost cur_before = cur@;
            out.push(cur);
            cur = Vec::new();
            proof {
                assert(seqs_view(out@) =~= seqs_view(out@.drop_last()) + seq![cur_before]);
                assert(seqs_view(out@.drop_last()) + seq![cur_before] + parts_acc(
                    line@.skip(i + 2),
                    Seq::<u8>::empty(),
                ) =~= seqs_view(out@.drop_last()) + (seq![cur_before] + parts_acc(
                    line@.skip(i + 2),
                    Seq::<u8>::empty(),
                )));
            }
            i = i + 2;
        } else {
            cur.push(line[i]);
            i = i + 1;
        }
    }
    proof {
        assert(line@.skip(n as int) =~= Seq::<u8>::empty());
    }
    out.push(cur);
    proof {
        assert(seqs_view(out@) =~= seqs_view(out@.drop_last()) + seq![out@.last()@]);
    }
    out
}

/// Splits the request line on ASCII whitespace into its fields.
pub fn split_whitespace_bytes(line: &[u8]) -> (r: Vec<Vec<u8>>)
    ensures
        seqs_view(r@) == spec_split_ws(line@),
{
    let n: usize = line.len();
    let mut out: Vec<Vec<u8>> = Vec::new();
    let mut cur: Vec<u8> = Vec::new();
    proof {
        assert(line@.skip(0) =~= line@);
        assert(seqs_view(out@) =~= Seq::<Seq<u8>>::empty());
    }
    let mut i: usize = 0;
    while i < n
        invariant
            0 <= i <= n,
            n == line@.len(),
            spec_split_ws(line@) == seqs_view(out@) + tokens_acc(line@.skip(i as int), cur@),
        decreases n - i,
    {
        let b = line[i];
        proof {
            assert(line@.skip(i as int)[0] == line@[i as int]);
            assert(line@.skip(i as int).skip(1) =~= line@.skip(i + 1));
        }
        if b == SP || (9 <= b && b <= 13) {
            if cur.len() > 0 {
                let ghost cur_before = cur@;
                out.push(cur);
                cur = Vec::new();
                proof {
                    assert(seqs_view(out@) =~= seqs_view(out@.drop_last()) + seq![cur_before]);
                    assert(seqs_view(out@.drop_last()) + seq![cur_before] + tokens_acc(
                        line@.skip(i + 1),
                        Seq::<u8>::empty(),
                    ) =~= seqs_view(out@.drop_last()) + (seq![cur_before] + tokens_acc(
                        line@.skip(i + 1),
                        Seq::<u8>::empty(),
                    )));
                }
            } else {
                proof {
                    assert(cur@ =~= Seq::<u8>::empty());
                }
            }
        } else {
            cur.push(b);
        }
        i = i + 1;
    }
    proof {
        assert(line@.skip(n as int) =~= Seq::<u8>::empty());
    }
    if cur.len() > 0 {
        out.push(cur);
        proof {
            assert(seqs_view(out@) =~= seqs_view(out@.drop_last()) + seq![out@.last()@]);
        }
    }
    proof {
        assert(seqs_view(out@) + Seq::<Seq<u8>>::empty() =~= seqs_view(out@));
    }
    out
}

/// Splits the request line into method, path and version; a missing field
/// is the empty string, never a failure.
pub fn parse_request_first_line(line: &[u8]) -> (r: (Vec<u8>, Vec<u8>, Vec<u8>))
    ensures
        r.0@ == spec_request_fields(line@).0,
        r.1@ == spec_request_fields(line@).1,
        r.2@ == spec_request_fields(line@).2,
{
    let parts = split_whitespace_bytes(line);
    let method: Vec<u8> = if parts.len() > 0 {
        copy_bytes(parts[0].as_slice())
    } else {
        Vec::new()
    };
    let path: Vec<u8> = if parts.len() > 1 {
        copy_bytes(parts[1].as_slice())
    } else {
        Vec::new()
    };
    let version: Vec<u8> = if parts.len() > 2 {
        copy_bytes(parts[2].as_slice())
    } else {
        Vec::new()
    };
    (method, path, version)
}

/// Collects the header entries from the header block's lines: every line
/// after the first that splits on `": "` into exactly two parts, up to the
/// first blank line.
pub fn parse_headers(lines: &Vec<Vec<u8>>) -> (r: Vec<(Vec<u8>, Vec<u8>)>)
    ensures
        pairs_view(r@) == spec_parse_headers(seqs_view(lines@)),
{
    let mut out: Vec<(Vec<u8>, Vec<u8>)> = Vec::new();
    proof {
        assert(pairs_view(out@) =~= Seq::<(Seq<u8>, Seq<u8>)>::empty());
    }
    if lines.len() == 0 {
        return out;
    }
    let n: usize = lines.len();
    let mut i: usize = 1;
    let mut stopped = false;
    while i < n && !stopped
        invariant
            1 <= i <= n,
            n == lines@.len(),
            n >= 1,
            stopped ==> spec_parse_headers(seqs_view(lines@)) == pairs_view(out@),
            !stopped ==> spec_parse_headers(seqs_view(lines@)) == pairs_view(out@)
                + spec_header_list(seqs_view(lines@).skip(i as int)),
        decreases n - i + (if stopped {
            0int
        } else {
            1int
        }),
    {
        let ghost rest = seqs_view(lines@).skip(i as int);
        proof {
            assert(rest[0] == lines@[i as int]@);
            assert(rest.skip(1) =~= seqs_view(lines@).skip(i + 1));
        }
        let line = &lines[i];
        let trimmed = trim(line.as_slice());
        if trimmed.len() == 0 {
            stopped = true;
            proof {
                assert(spec_header_list(rest) =~= Seq::<(Seq<u8>, Seq<u8>)>::empty());
                assert(pairs_view(out@) + Seq::<(Seq<u8>, Seq<u8>)>::empty() =~= pairs_view(out@));
            }
        } else {
            let parts = split_header_parts(line.as_slice());
            if parts.len() == 2 {
                let key = copy_bytes(parts[0].as_slice());
                let value = copy_bytes(parts[1].as_slice());
                let ghost kv = (key@, value@);
                out.push((key, value));
                proof {
                    assert(spec_header_entry(lines@[i as int]@) == Option::Some(kv));
                    assert(pairs_view(out@) =~= pairs_view(out@.drop_last()) + seq![kv]);
                    assert(pairs_view(out@.drop_last()) + seq![kv] + spec_header_list(rest.skip(1))
                        =~= pairs_view(out@.drop_last()) + (seq![kv] + spec_header_list(
                        rest.skip(1),
                    )));
                }
            } else {
                proof {
                    assert(spec_header_entry(lines@[i as int]@) == Option::<(
                        Seq<u8>,
                        Seq<u8>,
                    )>::None);
                }
            }
            i = i + 1;
        }
    }
    proof {
        if !stopped {
            assert(seqs_view(lines@).skip(n as int) =~= Seq::<Seq<u8>>::empty());
            assert(pairs_view(out@) + Seq::<(Seq<u8>, Seq<u8>)>::empty() =~= pairs_view(out@));
        }
    }
    out
}

/// Reads the declared body length out of the headers: the first
/// `Content-Length` key up to ASCII case, its value as a decimal number,
/// zero when absent or unparsable.
pub fn get_content_length(headers: &Vec<(Vec<u8>, Vec<u8>)>) -> (r: usize)
    ensures
        r as nat == spec_content_length(pairs_view(headers@)),
{
    let n: usize = headers.len();
    proof {
        assert(pairs_view(headers@).skip(0) =~= pairs_view(headers@));
    }
    let mut i: usize = 0;
    while i < n
        invariant
            0 <= i <= n,
            n == headers@.len(),
            spec_find_content_length(pairs_view(headers@)) == spec_find_content_length(
                pairs_view(headers@).skip(i as int),
            ),
        decreases n - i,
    {
        let ghost rest = pairs_view(headers@).skip(i as int);
        proof {
            assert(rest[0] == pairs_view(headers@)[i as int]);
            assert(rest.skip(1) =~= pairs_view(headers@).skip(i + 1));
        }
        if eq_ignore_ascii(headers[i].0.as_slice(), "Content-Length".as_bytes()) {
            let value = &headers[i].1;
            return match parse_usize(value.as_slice()) {
                Some(v) => v,
                None => 0,
            };
        }
        i = i + 1;
    }
    proof {
        assert(pairs_view(headers@).skip(n as int) =~= Seq::<(Seq<u8>, Seq<u8>)>::empty());
    }
    0
}

/// How many more bytes the caller must read after `buffer` so that the body
/// can be completed; fails when the header block never ends inside
/// `buffer`.
pub fn required_body_bytes(buffer: &[u8]) -> (r: Result<usize, ParseError>)
    ensures
        match spec_required_extra(buffer@) {
            Option::Some(need) => r == Result::<usize, ParseError>::Ok(need as usize),
            Option::None => r == Result::<usize, ParseError>::Err(ParseError::InvalidRequest),
        },
{
    let (head, fragment) = match split_buffer(buffer) {
        Ok(hb) => hb,
        Err(e) => {
            return Err(e);
        },
    };
    proof {
        lemma_header_end_from_bounds(buffer@, 0);
    }
    let lines = split_lines(head.as_slice());
    let headers = parse_headers(&lines);
    let content_length = get_content_length(&headers);
    proof {
        assert(content_length as nat == spec_buffer_content_length(buffer@));
    }
    if content_length > fragment.len() {
        Ok(content_length - fragment.len())
    } else {
        Ok(0)
    }
}

impl Request {
    /// Parses one request out of the first chunk read from the connection,
    /// completed by the `extra` bytes read afterwards.  Fails exactly when
    /// the header block never ends inside the chunk; the body is the bytes
    /// after the header block, extended by `extra` and truncated to the
    /// declared `Content-Length`.
    pub fn parse(buffer: &Vec<u8>, extra: &Vec<u8>) -> (r: Result<Request, ParseError>)
        ensures
            match r {
                Ok(req) => spec_parse(buffer@, extra@) == Option::Some(req@),
                Err(e) => spec_parse(buffer@, extra@) == Option::<RequestModel>::None && e
                    == ParseError::InvalidRequest,
            },
    {
        let (head, fragment) = match split_buffer(buffer.as_slice()) {
            Ok(hb) => hb,
            Err(e) => {
                return Err(e);
            },
        };
        proof {
            lemma_header_end_from_bounds(buffer@, 0);
        }
        let lines = split_lines(head.as_slice());
        let first_line: Vec<u8> = if lines.len() > 0 {
            copy_bytes(lines[0].as_slice())
        } else {
            Vec::new()
        };
        proof {
            if seqs_view(lines@).len() > 0 {
                assert(first_line@ == seqs_view(lines@)[0]);
            }
        }
        let (method, path, version) = parse_request_first_line(first_line.as_slice());
        let headers = parse_headers(&lines);
        let content_length = get_content_length(&headers);
        let mut body = fragment;
        append_bytes(&mut body, extra.as_slice());
        let ghost data = body@;
        let ghost cl = content_length as nat;
        if body.len() > content_length {
            body.truncate(content_length);
            proof {
                assert(body@ =~= data.take(cl as int));
            }
        } else {
            proof {
                assert(body@ =~= data.take(data.len() as int));
            }
        }
        let req = Request { method, path, version, headers, body };
        Ok(req)
    }
}

} // verus!
