//! The framed request/response protocol.
//!
//! A request frame is `id:u64 | opcode:u8 | key:16 bytes | body_len:u32 |
//! body`; a response frame is `id:u64 | body_len:u32 | body`. Integers are
//! big-endian.
use vstd::prelude::*;

use crate::wire::{
    be_bytes, be_value, lemma_be_bytes_of_value, lemma_be_value_bound, lemma_be_value_of_bytes,
    lemma_pow256_values, pow256, read_be, write_be,
};

verus! {

/// Bytes in a request frame before its body.
pub const REQUEST_HEADER_LEN: usize = 29;

/// Opcode of a read request.
pub const OPCODE_READ: u8 = 1;

/// Opcode of a write request.
pub const OPCODE_WRITE: u8 = 2;

/// What a request asks for.
#[derive(Clone, Copy, Debug, PartialEq, Eq, Structural)]
pub enum RequestType {
    Read,
    Write,
}

/// Why bytes could not be decoded as a frame.
#[derive(Clone, Copy, Debug, PartialEq, Eq, Structural)]
pub enum FrameError {
    /// Fewer bytes than the frame announces: wait for more.
    Incomplete,
    /// A length field exceeds the configured maximum: close the connection.
    BadFrame,
    /// The opcode is neither read nor write: close the connection.
    BadOpcode,
}

/// A numbered request for the value under a key, or a write of `body`.
#[derive(Debug)]
pub struct Request {
    pub id: u64,
    pub reqtype: RequestType,
    pub uuid: [u8; 16],
    pub body: Vec<u8>,
}

/// The answer to the request with the same id.
#[derive(Debug)]
pub struct Response {
    pub id: u64,
    pub body: Vec<u8>,
}

/// What a request holds, as mathematical values.
pub struct RequestView {
    pub id: u64,
    pub reqtype: RequestType,
    pub key: Seq<u8>,
    pub body: Seq<u8>,
}

impl View for Request {
    type V = RequestView;

    open spec fn view(&self) -> RequestView {
        RequestView { id: self.id, reqtype: self.reqtype, key: self.uuid@, body: self.body@ }
    }
}

/// The opcode that stands for a request type on the wire.
pub open spec fn opcode_of(t: RequestType) -> u8 {
    match t {
        RequestType::Read => OPCODE_READ,
        RequestType::Write => OPCODE_WRITE,
    }
}

impl RequestView {
    /// The bytes of this request's frame.
    pub open spec fn frame(self) -> Seq<u8> {
        be_bytes(self.id as nat, 8) + seq![opcode_of(self.reqtype)] + self.key + be_bytes(
            self.body.len(),
            4,
        ) + self.body
    }

    /// A request that a frame can carry.
    pub open spec fn is_framable(self) -> bool {
        &&& self.key.len() == 16
        &&& self.body.len() < pow256(4)
    }
}

/// The bytes of a response frame.
pub open spec fn response_frame(id: u64, body: Seq<u8>) -> Seq<u8> {
    be_bytes(id as nat, 8) + be_bytes(body.len(), 4) + body
}

/// The bytes of a sequence of request frames, one after the other.
pub open spec fn frames(reqs: Seq<RequestView>) -> Seq<u8>
    decreases reqs.len(),
{
    if reqs.len() == 0 {
        Seq::empty()
    } else {
        reqs[0].frame() + frames(reqs.skip(1))
    }
}

/// The body length that a request header announces.
pub open spec fn announced_body_len(b: Seq<u8>) -> nat {
    be_value(b.subrange(25, 29))
}

/// The first request frame of `b`, with the number of bytes it takes; bodies
/// longer than `max_body` are refused.
pub open spec fn parse_request(b: Seq<u8>, max_body: nat) -> Result<(RequestView, nat), FrameError> {
    if b.len() < REQUEST_HEADER_LEN {
        Err(FrameError::Incomplete)
    } else if b[8] != OPCODE_READ && b[8] != OPCODE_WRITE {
        Err(FrameError::BadOpcode)
    } else if announced_body_len(b) > max_body {
        Err(FrameError::BadFrame)
    } else if b.len() < REQUEST_HEADER_LEN + announced_body_len(b) {
        Err(FrameError::Incomplete)
    } else {
        let n = (REQUEST_HEADER_LEN + announced_body_len(b)) as nat;
        Ok(
            (
                RequestView {
                    id: be_value(b.subrange(0, 8)) as u64,
                    reqtype: if b[8] == OPCODE_READ {
                        RequestType::Read
                    } else {
                        RequestType::Write
                    },
                    key: b.subrange(9, 25),
                    body: b.subrange(REQUEST_HEADER_LEN as int, n as int),
                },
                n,
            ),
        )
    }
}

/// Decodes the request frame that starts at `start`.
fn decode_at(buf: &[u8], start: usize, max_body: u32) -> (r: Result<(Request, usize), FrameError>)
    requires
        start <= buf@.len(),
    ensures
        match (r, parse_request(buf@.skip(start as int), max_body as nat)) {
            (Ok((req, n)), Ok((v, m))) => req@ == v && n == m,
            (Err(e), Err(f)) => e == f,
            _ => false,
        },
{
    let ghost b = buf@.skip(start as int);
    if buf.len() - start < REQUEST_HEADER_LEN {
        return Err(FrameError::Incomplete);
    }
    let op = buf[start + 8];
    if op != OPCODE_READ && op != OPCODE_WRITE {
        return Err(FrameError::BadOpcode);
    }
    assert(buf@.subrange(start + 25, start + 29) =~= b.subrange(25, 29));
    let body_len = read_be(buf, start + 25, 4);
    if body_len > max_body as u128 {
        return Err(FrameError::BadFrame);
    }
    let body_len = body_len as usize;
    if buf.len() - start - REQUEST_HEADER_LEN < body_len {
        return Err(FrameError::Incomplete);
    }
    proof {
        lemma_be_value_bound(b.subrange(0, 8));
        lemma_pow256_values();
        assert(buf@.subrange(start as int, start + 8) =~= b.subrange(0, 8));
    }
    let id = read_be(buf, start, 8) as u64;
    let reqtype = if op == OPCODE_READ {
        RequestType::Read
    } else {
        RequestType::Write
    };
    let mut uuid: [u8; 16] = [0u8; 16];
    let mut i: usize = 0;
    while i < 16
        invariant
            i <= 16,
            buf@.len() >= start + REQUEST_HEADER_LEN,
            buf@.len() == buf.len(),
            forall|j: int| 0 <= j < i ==> uuid@[j] == buf@[start + 9 + j],
        decreases 16 - i,
    {
        uuid[i] = buf[start + 9 + i];
        i = i + 1;
    }
    assert(uuid@ =~= b.subrange(9, 25));
    let first = start + REQUEST_HEADER_LEN;
    let end = first + body_len;
    let mut body: Vec<u8> = Vec::new();
    let mut k: usize = first;
    while k < end
        invariant
            first <= k <= end,
            end <= buf@.len(),
            body@ == buf@.subrange(first as int, k as int),
        decreases end - k,
    {
        body.push(buf[k]);
        k = k + 1;
    }
    assert(body@ =~= b.subrange(REQUEST_HEADER_LEN as int, REQUEST_HEADER_LEN + body_len));
    Ok((Request { id, reqtype, uuid, body }, REQUEST_HEADER_LEN + body_len))
}

/// Decodes the first request frame of `buf`, returning the request and the
/// number of bytes its frame takes.
pub fn decode_request(buf: &[u8], max_body: u32) -> (r: Result<(Request, usize), FrameError>)
    ensures
        match (r, parse_request(buf@, max_body as nat)) {
            (Ok((req, n)), Ok((v, m))) => req@ == v && n == m,
            (Err(e), Err(f)) => e == f,
            _ => false,
        },
{
    assert(buf@.skip(0) =~= buf@);
    decode_at(buf, 0, max_body)
}

/// Every request frame of `b`, in order; fails with the first frame that
/// cannot be decoded.
pub open spec fn parse_requests(b: Seq<u8>, max_body: nat) -> Result<Seq<RequestView>, FrameError>
    decreases b.len(),
{
    if b.len() == 0 {
        Ok(Seq::empty())
    } else {
        match parse_request(b, max_body) {
            Ok((v, n)) => if 0 < n <= b.len() {
                match parse_requests(b.skip(n as int), max_body) {
                    Ok(rest) => Ok(seq![v] + rest),
                    Err(e) => Err(e),
                }
            } else {
                Err(FrameError::BadFrame)
            },
            Err(e) => Err(e),
        }
    }
}

/// The views of a sequence of requests.
pub open spec fn views(reqs: Seq<Request>) -> Seq<RequestView> {
    reqs.map_values(|r: Request| r@)
}

/// `prefix` followed by what `rest` decoded, or the error that stopped it.
pub open spec fn prepend(prefix: Seq<RequestView>, rest: Result<Seq<RequestView>, FrameError>) -> Result<Seq<RequestView>, FrameError> {
    match rest {
        Ok(r) => Ok(prefix + r),
        Err(e) => Err(e),
    }
}

/// Decodes a buffer that holds whole request frames, one after another.
pub fn decode_requests(buf: &[u8], max_body: u32) -> (r: Result<Vec<Request>, FrameError>)
    ensures
        match (r, parse_requests(buf@, max_body as nat)) {
            (Ok(reqs), Ok(vs)) => views(reqs@) == vs,
            (Err(e), Err(f)) => e == f,
            _ => false,
        },
{
    let mut reqs: Vec<Request> = Vec::new();
    let mut pos: usize = 0;
    assert(buf@.skip(0) =~= buf@);
    assert(views(reqs@) =~= Seq::<RequestView>::empty());
    while pos < buf.len()
        invariant
            pos <= buf@.len(),
            buf@.len() == buf.len(),
            parse_requests(buf@, max_body as nat) == prepend(
                views(reqs@),
                parse_requests(buf@.skip(pos as int), max_body as nat),
            ),
        decreases buf@.len() - pos,
    {
        let ghost rest = buf@.skip(pos as int);
        match decode_at(buf, pos, max_body) {
            Ok((req, n)) => {
                proof {
                    assert(rest.skip(n as int) =~= buf@.skip(pos + n));
                }
                let ghost before = views(reqs@);
                reqs.push(req);
                proof {
                    assert(views(reqs@) =~= before.push(req@));
                    let tail = parse_requests(buf@.skip(pos + n), max_body as nat);
                    match tail {
                        Ok(t) => {
                            assert(before + (seq![req@] + t) =~= before.push(req@) + t);
                        },
                        Err(_) => {},
                    }
                }
                pos = pos + n;
            },
            Err(e) => {
                return Err(e);
            },
        }
    }
    assert(buf@.skip(pos as int) =~= Seq::<u8>::empty());
    assert(views(reqs@) + Seq::<RequestView>::empty() =~= views(reqs@));
    Ok(reqs)
}

/// Encodes one request as a frame.
pub fn encode_request(req: &Request) -> (r: Vec<u8>)
    requires
        req.body@.len() <= u32::MAX,
    ensures
        r@ == req@.frame(),
{
    let mut out: Vec<u8> = Vec::new();
    append_request(&mut out, req);
    assert(out@ =~= req@.frame());
    out
}

fn append_request(out: &mut Vec<u8>, req: &Request)
    requires
        req.body@.len() <= u32::MAX,
    ensures
        final(out)@ == old(out)@ + req@.frame(),
{
    write_be(out, req.id as u128, 8);
    out.push(opcode(req.reqtype));
    let mut i: usize = 0;
    let ghost mid = out@;
    while i < 16
        invariant
            i <= 16,
            out@ == mid + req.uuid@.subrange(0, i as int),
        decreases 16 - i,
    {
        out.push(req.uuid[i]);
        i = i + 1;
        assert(out@ =~= mid + req.uuid@.subrange(0, i as int));
    }
    write_be(out, req.body.len() as u128, 4);
    append_bytes(out, &req.body);
    assert(req.uuid@.subrange(0, 16) =~= req.uuid@);
    assert(final(out)@ =~= old(out)@ + req@.frame());
}

fn opcode(t: RequestType) -> (r: u8)
    ensures
        r == opcode_of(t),
{
    match t {
        RequestType::Read => OPCODE_READ,
        RequestType::Write => OPCODE_WRITE,
    }
}

fn append_bytes(out: &mut Vec<u8>, b: &Vec<u8>)
    ensures
        final(out)@ == old(out)@ + b@,
{
    let ghost start = out@;
    let mut i: usize = 0;
    while i < b.len()
        invariant
            i <= b@.len(),
            out@ == start + b@.subrange(0, i as int),
        decreases b@.len() - i,
    {
        out.push(b[i]);
        i = i + 1;
        assert(out@ =~= start + b@.subrange(0, i as int));
    }
    assert(b@.subrange(0, b@.len() as int) =~= b@);
}

/// Adding one more request to a sequence adds its frame at the end.
proof fn lemma_frames_push(reqs: Seq<RequestView>, v: RequestView)
    ensures
        frames(reqs.push(v)) == frames(reqs) + v.frame(),
    decreases reqs.len(),
{
    if reqs.len() == 0 {
        assert(reqs.push(v).skip(1) =~= Seq::<RequestView>::empty());
        assert(reqs.push(v)[0] == v);
        assert(frames(Seq::<RequestView>::empty()) == Seq::<u8>::empty());
        assert(frames(reqs.push(v)) == v.frame() + Seq::<u8>::empty());
        assert(frames(reqs.push(v)) =~= frames(reqs) + v.frame());
    } else {
        lemma_frames_push(reqs.skip(1), v);
        assert(reqs.push(v).skip(1) =~= reqs.skip(1).push(v));
        assert(reqs.push(v)[0] == reqs[0]);
        let a = reqs[0].frame();
        let b = frames(reqs.skip(1));
        assert(frames(reqs.push(v)) == a + (b + v.frame()));
        assert(a + (b + v.frame()) =~= (a + b) + v.frame());
    }
}

/// Encodes a sequence of requests as frames, one after another.
pub fn encode_requests(reqs: &Vec<Request>) -> (r: Vec<u8>)
    requires
        forall|i: int| 0 <= i < reqs@.len() ==> #[trigger] reqs@[i].body@.len() <= u32::MAX,
    ensures
        r@ == frames(views(reqs@)),
{
    let mut out: Vec<u8> = Vec::new();
    let mut i: usize = 0;
    while i < reqs.len()
        invariant
            i <= reqs@.len(),
            forall|j: int| 0 <= j < reqs@.len() ==> #[trigger] reqs@[j].body@.len() <= u32::MAX,
            out@ == frames(views(reqs@.subrange(0, i as int))),
        decreases reqs@.len() - i,
    {
        append_request(&mut out, &reqs[i]);
        proof {
            lemma_frames_push(views(reqs@.subrange(0, i as int)), reqs@[i as int]@);
            assert(views(reqs@.subrange(0, i + 1)) =~= views(reqs@.subrange(0, i as int)).push(
                reqs@[i as int]@,
            ));
        }
        i = i + 1;
    }
    assert(reqs@.subrange(0, reqs@.len() as int) =~= reqs@);
    out
}

/// Encodes a response as a frame.
pub fn encode_response(resp: &Response) -> (r: Vec<u8>)
    requires
        resp.body@.len() <= u32::MAX,
    ensures
        r@ == response_frame(resp.id, resp.body@),
{
    let mut out: Vec<u8> = Vec::new();
    write_be(&mut out, resp.id as u128, 8);
    write_be(&mut out, resp.body.len() as u128, 4);
    append_bytes(&mut out, &resp.body);
    assert(out@ =~= response_frame(resp.id, resp.body@));
    out
}

/// A decoded frame is exactly the bytes that were decoded.
proof fn lemma_parsed_frame(b: Seq<u8>, max_body: nat)
    requires
        parse_request(b, max_body) is Ok,
    ensures
        ({
            let (v, n) = parse_request(b, max_body)->Ok_0;
            &&& v.frame() == b.subrange(0, n as int)
            &&& v.is_framable()
            &&& v.frame().len() == n
        }),
{
    let (v, n) = parse_request(b, max_body)->Ok_0;
    let id_bytes = b.subrange(0, 8);
    let len_bytes = b.subrange(25, 29);
    lemma_be_value_bound(id_bytes);
    lemma_be_value_bound(len_bytes);
    lemma_pow256_values();
    lemma_be_bytes_of_value(id_bytes);
    lemma_be_bytes_of_value(len_bytes);
    assert(v.id as nat == be_value(id_bytes));
    assert(v.body.len() == be_value(len_bytes));
    assert(opcode_of(v.reqtype) == b[8]);
    assert(v.frame() =~= b.subrange(0, n as int));
}

/// The frame of a request decodes back to that request, whatever follows it.
proof fn lemma_frame_parses(v: RequestView, rest: Seq<u8>, max_body: nat)
    requires
        v.is_framable(),
        v.body.len() <= max_body,
    ensures
        parse_request(v.frame() + rest, max_body) == Ok::<(RequestView, nat), FrameError>((v, v.frame().len())),
{
    let b = v.frame() + rest;
    lemma_pow256_values();
    lemma_be_value_of_bytes(v.id as nat, 8);
    lemma_be_value_of_bytes(v.body.len(), 4);
    assert(b.subrange(0, 8) =~= be_bytes(v.id as nat, 8));
    assert(b.subrange(25, 29) =~= be_bytes(v.body.len(), 4));
    assert(b[8] == opcode_of(v.reqtype));
    assert(b.subrange(9, 25) =~= v.key);
    assert(b.subrange(29, 29 + v.body.len() as int) =~= v.body);
    let (w, n) = parse_request(b, max_body)->Ok_0;
    assert(w.reqtype == v.reqtype);
    assert(w == v);
}

/// Decoding a well-formed sequence of request frames and encoding the
/// requests again gives back the same bytes.
pub proof fn lemma_decode_then_encode(b: Seq<u8>, max_body: nat)
    requires
        parse_requests(b, max_body) is Ok,
    ensures
        frames(parse_requests(b, max_body)->Ok_0) == b,
    decreases b.len(),
{
    if b.len() == 0 {
        assert(frames(Seq::<RequestView>::empty()) =~= b);
    } else {
        let (v, n) = parse_request(b, max_body)->Ok_0;
        lemma_parsed_frame(b, max_body);
        lemma_decode_then_encode(b.skip(n as int), max_body);
        let rest = parse_requests(b.skip(n as int), max_body)->Ok_0;
        let all = seq![v] + rest;
        assert(all[0] == v);
        assert(all.skip(1) =~= rest);
        assert(frames(all) == v.frame() + frames(rest));
        assert(b =~= b.subrange(0, n as int) + b.skip(n as int));
    }
}

/// Encoding requests as frames and decoding the bytes gives back the same
/// requests.
pub proof fn lemma_encode_then_decode(reqs: Seq<RequestView>, max_body: nat)
    requires
        forall|i: int| 0 <= i < reqs.len() ==> #[trigger] reqs[i].is_framable(),
        forall|i: int| 0 <= i < reqs.len() ==> #[trigger] reqs[i].body.len() <= max_body,
    ensures
        parse_requests(frames(reqs), max_body) == Ok::<Seq<RequestView>, FrameError>(reqs),
    decreases reqs.len(),
{
    if reqs.len() == 0 {
        assert(frames(reqs) =~= Seq::<u8>::empty());
        assert(reqs =~= Seq::<RequestView>::empty());
    } else {
        let v = reqs[0];
        let tail = reqs.skip(1);
        assert(v.is_framable());
        assert(v.body.len() <= max_body);
        assert forall|i: int| 0 <= i < tail.len() implies #[trigger] tail[i].is_framable() && tail[i].body.len() <= max_body by {
            assert(tail[i] == reqs[i + 1]);
        }
        assert forall|i: int| 0 <= i < tail.len() implies #[trigger] tail[i].body.len() <= max_body by {
            assert(tail[i] == reqs[i + 1]);
        }
        lemma_encode_then_decode(tail, max_body);
        let b = frames(reqs);
        lemma_frame_parses(v, frames(tail), max_body);
        let n = v.frame().len();
        assert(b == v.frame() + frames(tail));
        assert(n >= REQUEST_HEADER_LEN);
        assert(0 < n <= b.len());
        assert(b.skip(n as int) =~= frames(tail));
        assert(seq![v] + tail =~= reqs);
    }
}

} // verus!
