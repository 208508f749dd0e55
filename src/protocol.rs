//! The wire protocol: request frames from clients, response frames from the
//! server, and the per-connection buffer that cuts a byte stream into frames.

use vstd::prelude::*;
use vstd::slice::{slice_subrange, slice_to_vec};
use crate::event::{opt_view, EventRes, Reply};
use crate::record::{be16, len_field, push_bytes, push_len, value_field, NONE_VALUE_LEN};

verus! {

/// The byte each side sends first, and must receive back.
pub const HELLO_NUM: u8 = 77;

pub const OP_GET: u8 = 0xc1;
pub const OP_SET: u8 = 0xc2;
pub const RES_GET: u8 = 0x81;
pub const RES_SET: u8 = 0x82;

/// A request as it travels on the wire.
pub enum Request {
    Get { key: Vec<u8> },
    Put { key: Vec<u8>, value: Option<Vec<u8>> },
}

/// What a request frame holds.
pub enum RequestModel {
    Get { key: Seq<u8> },
    Put { key: Seq<u8>, value: Option<Seq<u8>> },
}

impl View for Request {
    type V = RequestModel;

    open spec fn view(&self) -> RequestModel {
        match self {
            Request::Get { key } => RequestModel::Get { key: key@ },
            Request::Put { key, value } => RequestModel::Put { key: key@, value: opt_view(*value) },
        }
    }
}

/// What the front of a buffer holds.
pub enum Framing<T> {
    /// Not enough bytes yet to tell.
    Incomplete,
    /// An opcode that is not known.
    Invalid { op: u8 },
    /// A whole frame, `len` bytes long.
    Complete { frame: T, len: nat },
}

/// The request frame at the front of `b`.
pub open spec fn parse_request(b: Seq<u8>) -> Framing<RequestModel> {
    if b.len() == 0 {
        Framing::Incomplete
    } else if b[0] != OP_GET && b[0] != OP_SET {
        Framing::Invalid { op: b[0] }
    } else if b.len() < 3 {
        Framing::Incomplete
    } else {
        let kl = be16(b, 1) % 0x8000;
        let key = b.subrange(3, 3 + kl);
        if b[0] == OP_GET {
            if b.len() < 3 + kl {
                Framing::Incomplete
            } else {
                Framing::Complete { frame: RequestModel::Get { key }, len: (3 + kl) as nat }
            }
        } else if b.len() < 5 + kl {
            Framing::Incomplete
        } else if be16(b, 3 + kl) == 0xffff {
            Framing::Complete { frame: RequestModel::Put { key, value: None }, len: (5 + kl) as nat }
        } else {
            let vl = be16(b, 3 + kl) % 0x8000;
            if b.len() < 5 + kl + vl {
                Framing::Incomplete
            } else {
                Framing::Complete {
                    frame: RequestModel::Put { key, value: Some(b.subrange(5 + kl, 5 + kl + vl)) },
                    len: (5 + kl + vl) as nat,
                }
            }
        }
    }
}

/// The bytes of a request frame.
pub open spec fn request_bytes(r: RequestModel) -> Seq<u8> {
    match r {
        RequestModel::Get { key } => seq![OP_GET] + len_field(key.len()) + key,
        RequestModel::Put { key, value } => seq![OP_SET] + len_field(key.len()) + key
            + value_field(value),
    }
}

/// Reads the request frame at the front of `buf`: `Ok(None)` when more
/// bytes are needed, `Err(op)` for an unknown opcode.
pub fn read_request(buf: &[u8]) -> (r: Result<Option<(Request, usize)>, u8>)
    ensures
        match parse_request(buf@) {
            Framing::Incomplete => r == Ok::<Option<(Request, usize)>, u8>(None),
            Framing::Invalid { op } => r == Err::<Option<(Request, usize)>, u8>(op),
            Framing::Complete { frame, len } => r matches Ok(Some((req, n))) && req@ == frame
                && n == len,
        },
{
    let len = buf.len();
    if len == 0 {
        return Ok(None);
    }
    let op = buf[0];
    if op != OP_GET && op != OP_SET {
        return Err(op);
    }
    if len < 3 {
        return Ok(None);
    }
    let key_len = (buf[1] as usize * 0x100 + buf[2] as usize) % 0x8000;
    assert(key_len == be16(buf@, 1) % 0x8000);
    if len - 3 < key_len {
        return Ok(None);
    }
    let key = slice_to_vec(slice_subrange(buf, 3, 3 + key_len));
    if op == OP_GET {
        return Ok(Some((Request::Get { key }, 3 + key_len)));
    }
    if len - 3 - key_len < 2 {
        return Ok(None);
    }
    let value_len = buf[3 + key_len] as usize * 0x100 + buf[4 + key_len] as usize;
    assert(value_len == be16(buf@, 3 + key_len));
    if value_len == NONE_VALUE_LEN as usize {
        return Ok(Some((Request::Put { key, value: None }, 5 + key_len)));
    }
    let vl = value_len % 0x8000;
    if len - 5 - key_len < vl {
        return Ok(None);
    }
    let value = slice_to_vec(slice_subrange(buf, 5 + key_len, 5 + key_len + vl));
    Ok(Some((Request::Put { key, value: Some(value) }, 5 + key_len + vl)))
}

/// A complete frame never claims more bytes than the buffer holds.
pub proof fn lemma_request_len(b: Seq<u8>)
    ensures
        parse_request(b) matches Framing::Complete { len, .. } ==> len <= b.len(),
{
}

/// A request frame that arrives in two pieces is read as it is read whole:
/// until all its bytes are there the front of the buffer is incomplete, and
/// from then on it is the same frame, whatever follows it.
pub proof fn lemma_split_request(a: Seq<u8>, b: Seq<u8>)
    ensures
        parse_request(a + b) matches Framing::Complete { frame, len } ==> if a.len() < len {
            parse_request(a) is Incomplete
        } else {
            parse_request(a) == parse_request(a + b)
        },
{
    let ab = a + b;
    if let Framing::Complete { frame, len } = parse_request(ab) {
        assert(forall|i: int| 0 <= i < a.len() ==> ab[i] == a[i]);
        if a.len() >= 3 {
            let kl = be16(ab, 1) % 0x8000;
            assert(be16(a, 1) == be16(ab, 1));
            if a.len() >= 3 + kl {
                assert(a.subrange(3, 3 + kl) =~= ab.subrange(3, 3 + kl));
            }
            if a.len() >= 5 + kl {
                assert(be16(a, 3 + kl) == be16(ab, 3 + kl));
                let vl = be16(ab, 3 + kl) % 0x8000;
                if a.len() >= 5 + kl + vl {
                    assert(a.subrange(5 + kl, 5 + kl + vl) =~= ab.subrange(5 + kl, 5 + kl + vl));
                }
            }
        }
    }
}

/// The bytes of a request whose lengths fit are read back as that request,
/// whatever follows them.
pub proof fn lemma_request_round_trip(r: RequestModel, tail: Seq<u8>)
    requires
        match r {
            RequestModel::Get { key } => key.len() <= 0x7fff,
            RequestModel::Put { key, value } => key.len() <= 0x7fff && (value matches Some(v)
                ==> v.len() <= 0x7fff),
        },
    ensures
        parse_request(request_bytes(r) + tail) == (Framing::Complete {
            frame: r,
            len: request_bytes(r).len(),
        }),
{
    let b = request_bytes(r) + tail;
    match r {
        RequestModel::Get { key } => {
            let kl = key.len() as int;
            assert((kl / 0x100) * 0x100 + kl % 0x100 == kl) by (nonlinear_arith)
                requires kl >= 0;
            assert(b[1] == len_field(key.len())[0] && b[2] == len_field(key.len())[1]);
            assert(b.subrange(3, 3 + kl) =~= key);
        },
        RequestModel::Put { key, value } => {
            let kl = key.len() as int;
            assert((kl / 0x100) * 0x100 + kl % 0x100 == kl) by (nonlinear_arith)
                requires kl >= 0;
            assert(b[1] == len_field(key.len())[0] && b[2] == len_field(key.len())[1]);
            assert(b.subrange(3, 3 + kl) =~= key);
            match value {
                Some(v) => {
                    let vl = v.len() as int;
                    assert((vl / 0x100) * 0x100 + vl % 0x100 == vl) by (nonlinear_arith)
                        requires vl >= 0;
                    assert(b[3 + kl] == len_field(v.len())[0] && b[4 + kl] == len_field(v.len())[1]);
                    assert(b.subrange(5 + kl, 5 + kl + vl) =~= v);
                },
                None => {
                    assert(b[3 + kl] == 0xff && b[4 + kl] == 0xff);
                },
            }
        },
    }
}

/// The bytes of a request frame.
pub fn encode_request(req: &Request) -> (r: Vec<u8>)
    ensures
        r@ == request_bytes(req@),
{
    let mut out: Vec<u8> = Vec::new();
    match req {
        Request::Get { key } => {
            out.push(OP_GET);
            push_len(&mut out, key.len());
            push_bytes(&mut out, key.as_slice());
        },
        Request::Put { key, value } => {
            out.push(OP_SET);
            push_len(&mut out, key.len());
            push_bytes(&mut out, key.as_slice());
            match value {
                Some(v) => {
                    push_len(&mut out, v.len());
                    push_bytes(&mut out, v.as_slice());
                },
                None => {
                    out.push(0xff);
                    out.push(0xff);
                },
            }
        },
    }
    assert(out@ =~= request_bytes(req@));
    out
}

/// The bytes of a response frame.
pub open spec fn response_bytes(r: Reply) -> Seq<u8> {
    match r {
        Reply::Value { value } => seq![RES_GET] + value_field(value),
        Reply::Ack => seq![RES_SET],
    }
}

/// The bytes of the response frame for a reply.
pub fn encode_response(res: &EventRes) -> (r: Vec<u8>)
    ensures
        r@ == response_bytes(res.reply()),
{
    let mut out: Vec<u8> = Vec::new();
    match res {
        EventRes::GET { value, .. } => {
            out.push(RES_GET);
            match value {
                Some(v) => {
                    push_len(&mut out, v.len());
                    push_bytes(&mut out, v.as_slice());
                },
                None => {
                    out.push(0xff);
                    out.push(0xff);
                },
            }
        },
        EventRes::SET { .. } => {
            out.push(RES_SET);
        },
    }
    assert(out@ =~= response_bytes(res.reply()));
    out
}

/// The response frame at the front of `b`.
pub open spec fn parse_response(b: Seq<u8>) -> Framing<Reply> {
    if b.len() == 0 {
        Framing::Incomplete
    } else if b[0] == RES_SET {
        Framing::Complete { frame: Reply::Ack, len: 1 }
    } else if b[0] != RES_GET {
        Framing::Invalid { op: b[0] }
    } else if b.len() < 3 {
        Framing::Incomplete
    } else if be16(b, 1) == 0xffff {
        Framing::Complete { frame: Reply::Value { value: None }, len: 3 }
    } else {
        let vl = be16(b, 1) % 0x8000;
        if b.len() < 3 + vl {
            Framing::Incomplete
        } else {
            Framing::Complete {
                frame: Reply::Value { value: Some(b.subrange(3, 3 + vl)) },
                len: (3 + vl) as nat,
            }
        }
    }
}

/// The bytes of a response whose value fits are read back as that
/// response, whatever follows them.
pub proof fn lemma_response_round_trip(r: Reply, tail: Seq<u8>)
    requires
        r matches Reply::Value { value: Some(v) } ==> v.len() <= 0x7fff,
    ensures
        parse_response(response_bytes(r) + tail) == (Framing::Complete {
            frame: r,
            len: response_bytes(r).len(),
        }),
{
    let b = response_bytes(r) + tail;
    if let Reply::Value { value } = r {
        match value {
            Some(v) => {
                let vl = v.len() as int;
                assert((vl / 0x100) * 0x100 + vl % 0x100 == vl) by (nonlinear_arith)
                    requires
                        vl >= 0,
                ;
                assert(b[1] == len_field(v.len())[0] && b[2] == len_field(v.len())[1]);
                assert(b.subrange(3, 3 + vl) =~= v);
            },
            None => {
                assert(b[1] == 0xff && b[2] == 0xff);
            },
        }
    }
}

/// A response as a client reads it.
pub enum Response {
    Value { value: Option<Vec<u8>> },
    Ack,
}

impl View for Response {
    type V = Reply;

    open spec fn view(&self) -> Reply {
        match self {
            Response::Value { value } => Reply::Value { value: opt_view(*value) },
            Response::Ack => Reply::Ack,
        }
    }
}

/// Reads the response frame at the front of `buf`: `Ok(None)` when more
/// bytes are needed, `Err(op)` for an unknown opcode.
pub fn read_response(buf: &[u8]) -> (r: Result<Option<(Response, usize)>, u8>)
    ensures
        match parse_response(buf@) {
            Framing::Incomplete => r == Ok::<Option<(Response, usize)>, u8>(None),
            Framing::Invalid { op } => r == Err::<Option<(Response, usize)>, u8>(op),
            Framing::Complete { frame, len } => r matches Ok(Some((res, n))) && res@ == frame
                && n == len,
        },
{
    let len = buf.len();
    if len == 0 {
        return Ok(None);
    }
    let op = buf[0];
    if op == RES_SET {
        return Ok(Some((Response::Ack, 1)));
    }
    if op != RES_GET {
        return Err(op);
    }
    if len < 3 {
        return Ok(None);
    }
    let value_len = buf[1] as usize * 0x100 + buf[2] as usize;
    assert(value_len == be16(buf@, 1));
    if value_len == NONE_VALUE_LEN as usize {
        return Ok(Some((Response::Value { value: None }, 3)));
    }
    let vl = value_len % 0x8000;
    if len - 3 < vl {
        return Ok(None);
    }
    let value = slice_to_vec(slice_subrange(buf, 3, 3 + vl));
    Ok(Some((Response::Value { value: Some(value) }, 3 + vl)))
}

/// The bytes a connection has received and not yet cut into requests.
pub struct Framer {
    buf: Vec<u8>,
}

impl View for Framer {
    type V = Seq<u8>;

    closed spec fn view(&self) -> Seq<u8> {
        self.buf@
    }
}

impl Framer {
    /// An empty buffer.
    pub fn new() -> (r: Framer)
        ensures
            r@ == Seq::<u8>::empty(),
    {
        Framer { buf: Vec::new() }
    }

    /// Appends bytes read from the connection.
    pub fn push(&mut self, bytes: &[u8])
        ensures
            final(self)@ == old(self)@ + bytes@,
    {
        push_bytes(&mut self.buf, bytes);
    }

    /// Takes the request at the front of the buffer, if it is all there.
    /// Nothing is consumed while the frame is incomplete, nor on an unknown
    /// opcode, which the caller treats as fatal for the connection.
    pub fn next_request(&mut self) -> (r: Result<Option<Request>, u8>)
        ensures
            match parse_request(old(self)@) {
                Framing::Incomplete => r == Ok::<Option<Request>, u8>(None) && final(self)@ == old(
                    self,
                )@,
                Framing::Invalid { op } => r == Err::<Option<Request>, u8>(op) && final(self)@
                    == old(self)@,
                Framing::Complete { frame, len } => r matches Ok(Some(req)) && req@ == frame
                    && final(self)@ == old(self)@.subrange(len as int, old(self)@.len() as int),
            },
    {
        proof {
            lemma_request_len(self.buf@);
        }
        match read_request(self.buf.as_slice()) {
            Ok(Some((req, n))) => {
                let rest = self.buf.split_off(n);
                self.buf = rest;
                Ok(Some(req))
            },
            Ok(None) => Ok(None),
            Err(op) => Err(op),
        }
    }
}

} // verus!
