//! Messages of the BitTorrent peer wire protocol.

use vstd::prelude::*;

verus! {

/// A peer wire message: a four-byte length prefix, an optional message id
/// and an optional payload.
pub struct Msg {
    pub prefix: [u8; 4],
    pub id: Option<u8>,
    pub payload: Option<Payload>,
}

/// The payload of a message.
pub struct Payload {
    pub data: Vec<u8>,
}

/// What a single-file torrent says of its file.
pub struct SingleFileInfo {
    pub piece_length: u32,
    pub pieces: Vec<u8>,
    pub name: String,
    pub length: u32,
}

/// A block of a piece.
pub struct Piece {
    pub index: u32,
    pub begin: u32,
    pub block: Vec<u8>,
}

/// Big-endian bytes of a 32-bit number.
pub open spec fn be_bytes(x: u32) -> Seq<u8> {
    seq![
        (x / 0x1000000) as u8,
        ((x / 0x10000) % 0x100) as u8,
        ((x / 0x100) % 0x100) as u8,
        (x % 0x100) as u8,
    ]
}

/// The four bytes of `be_bytes` spell the number back, most significant
/// first.
pub proof fn lemma_be_bytes_value(x: u32)
    ensures
        be_bytes(x).len() == 4,
        be_bytes(x)[0] * 0x1000000 + be_bytes(x)[1] * 0x10000 + be_bytes(x)[2] * 0x100
            + be_bytes(x)[3] == x,
{
    let a = x / 0x1000000;
    let b = (x / 0x10000) % 0x100;
    let c = (x / 0x100) % 0x100;
    let d = x % 0x100;
    assert(a < 0x100);
    assert(a * 0x1000000 + b * 0x10000 + c * 0x100 + d == x) by (nonlinear_arith)
        requires
            a == x / 0x1000000,
            b == (x / 0x10000) % 0x100,
            c == (x / 0x100) % 0x100,
            d == x % 0x100,
    ;
}

/// The bytes that a message goes on the wire as.
pub open spec fn msg_bytes(m: Msg) -> Seq<u8> {
    m.prefix@ + match m.id {
        Some(id) => seq![id],
        None => Seq::empty(),
    } + match m.payload {
        Some(p) => p.data@,
        None => Seq::empty(),
    }
}

/// Big-endian bytes of `x` appended to `buf`.
fn push_be_bytes(buf: &mut Vec<u8>, x: u32)
    ensures
        final(buf)@ == old(buf)@ + be_bytes(x),
{
    buf.push((x / 0x1000000) as u8);
    buf.push(((x / 0x10000) % 0x100) as u8);
    buf.push(((x / 0x100) % 0x100) as u8);
    buf.push((x % 0x100) as u8);
    assert(buf@ =~= old(buf)@ + be_bytes(x));
}

/// A request goes on the wire with a length prefix that counts the bytes
/// after it (13), the id 6, then piece index, block offset and block length,
/// each spelled big-endian in four bytes.
pub proof fn lemma_request_wire(m: Msg, index: u32, begin: u32, length: u32)
    requires
        m.prefix@ == seq![0u8, 0, 0, 13],
        m.id == Some(6u8),
        m.payload matches Some(p) && p.data@ == be_bytes(index) + be_bytes(begin) + be_bytes(length),
    ensures
        msg_bytes(m).len() == 17,
        be_i32_value(msg_bytes(m).subrange(0, 4)) == msg_bytes(m).len() - 4,
        msg_bytes(m)[4] == 6,
        ({
            let w = msg_bytes(m);
            &&& w[5] * 0x1000000 + w[6] * 0x10000 + w[7] * 0x100 + w[8] == index
            &&& w[9] * 0x1000000 + w[10] * 0x10000 + w[11] * 0x100 + w[12] == begin
            &&& w[13] * 0x1000000 + w[14] * 0x10000 + w[15] * 0x100 + w[16] == length
        }),
{
    lemma_be_bytes_value(index);
    lemma_be_bytes_value(begin);
    lemma_be_bytes_value(length);
    let w = msg_bytes(m);
    let d = m.payload.unwrap().data@;
    assert(w =~= m.prefix@ + seq![6u8] + d);
    assert(w.subrange(0, 4) =~= seq![0u8, 0, 0, 13]);
    assert(w.subrange(5, 9) =~= be_bytes(index));
    assert(w[5] == be_bytes(index)[0] && w[6] == be_bytes(index)[1] && w[7] == be_bytes(index)[2]
        && w[8] == be_bytes(index)[3]);
    assert(w[9] == be_bytes(begin)[0] && w[10] == be_bytes(begin)[1] && w[11] == be_bytes(begin)[2]
        && w[12] == be_bytes(begin)[3]);
    assert(w[13] == be_bytes(length)[0] && w[14] == be_bytes(length)[1] && w[15] == be_bytes(
        length,
    )[2] && w[16] == be_bytes(length)[3]);
}

impl Msg {
    /// The message as bytes: the prefix, the id if any, the payload if any.
    pub fn pack(&self) -> (res: Vec<u8>)
        ensures
            res@ == msg_bytes(*self),
    {
        let mut buf = Vec::<u8>::new();
        buf.push(self.prefix[0]);
        buf.push(self.prefix[1]);
        buf.push(self.prefix[2]);
        buf.push(self.prefix[3]);
        assert(buf@ =~= self.prefix@);
        if let Some(value) = self.id {
            buf.push(value);
        }
        let ghost with_id = buf@;
        if let Some(payload) = &self.payload {
            let mut i: usize = 0;
            while i < payload.data.len()
                invariant
                    i <= payload.data.len(),
                    buf@ == with_id + payload.data@.take(i as int),
                decreases payload.data.len() - i,
            {
                buf.push(payload.data[i]);
                i = i + 1;
                assert(buf@ =~= with_id + payload.data@.take(i as int));
            }
            assert(payload.data@.take(payload.data.len() as int) =~= payload.data@);
        }
        assert(buf@ =~= msg_bytes(*self));
        buf
    }

    /// A `request` message (id 6) for `length` bytes at `begin` of piece
    /// `index`.
    pub fn request(index: u32, begin: u32, length: u32) -> (res: Msg)
        ensures
            res.prefix@ == seq![0u8, 0, 0, 13],
            res.id == Some(6u8),
            res.payload matches Some(p) && p.data@ == be_bytes(index) + be_bytes(begin) + be_bytes(
                length,
            ),
    {
        let mut data = Vec::<u8>::new();
        push_be_bytes(&mut data, index);
        push_be_bytes(&mut data, begin);
        push_be_bytes(&mut data, length);
        let res = Msg { prefix: [0, 0, 0, 13], id: Some(6), payload: Some(Payload { data }) };
        assert(res.prefix@ =~= seq![0u8, 0, 0, 13]);
        assert(data@ =~= be_bytes(index) + be_bytes(begin) + be_bytes(length));
        res
    }

    /// An `interested` message (id 2, no payload).
    pub fn interested() -> (res: Msg)
        ensures
            res.prefix@ == seq![0u8, 0, 0, 1],
            res.id == Some(2u8),
            res.payload is None,
    {
        let res = Msg { prefix: [0, 0, 0, 1], id: Some(2), payload: None };
        assert(res.prefix@ =~= seq![0u8, 0, 0, 1]);
        res
    }
}

/// The protocol name `BitTorrent protocol` as bytes.
pub open spec fn protocol_name() -> Seq<u8> {
    seq![66u8, 105, 116, 84, 111, 114, 114, 101, 110, 116, 32, 112, 114, 111, 116, 111, 99, 111, 108]
}

/// This client's peer id `Rbit-Sn5J5VGM5CkFccE` as bytes.
pub open spec fn peer_id() -> Seq<u8> {
    seq![82u8, 98, 105, 116, 45, 83, 110, 53, 74, 53, 86, 71, 77, 53, 67, 107, 70, 99, 99, 69]
}

/// The handshake: the protocol name's length (19), the name, eight reserved
/// zero bytes, the info hash and the peer id.
pub open spec fn handshake_bytes(hash: Seq<u8>) -> Seq<u8> {
    seq![19u8] + protocol_name() + seq![0u8, 0, 0, 0, 0, 0, 0, 0] + hash + peer_id()
}

/// The handshake opens with the length of the protocol name, then the name,
/// eight zero bytes, the info hash where the protocol puts it (from byte
/// 28 on) and a 20-byte peer id.
pub proof fn lemma_handshake_layout(hash: Seq<u8>)
    ensures
        handshake_bytes(hash).len() == 48 + hash.len(),
        handshake_bytes(hash)[0] == protocol_name().len(),
        handshake_bytes(hash).subrange(1, 20) == protocol_name(),
        forall|i: int| 20 <= i < 28 ==> #[trigger] handshake_bytes(hash)[i] == 0,
        handshake_bytes(hash).subrange(28, 28 + hash.len() as int) == hash,
        handshake_bytes(hash).subrange(28 + hash.len() as int, 48 + hash.len() as int) == peer_id(),
        peer_id().len() == 20,
{
    let h = handshake_bytes(hash);
    assert(h.subrange(1, 20) =~= protocol_name());
    assert(h.subrange(28, 28 + hash.len() as int) =~= hash);
    assert(h.subrange(28 + hash.len() as int, 48 + hash.len() as int) =~= peer_id());
}

/// Appends `src` to `dst`.
fn extend_bytes(dst: &mut Vec<u8>, src: &[u8])
    ensures
        final(dst)@ == old(dst)@ + src@,
{
    let mut i: usize = 0;
    while i < src.len()
        invariant
            i <= src.len(),
            dst@ == old(dst)@ + src@.take(i as int),
        decreases src.len() - i,
    {
        dst.push(src[i]);
        i = i + 1;
        assert(dst@ =~= old(dst)@ + src@.take(i as int));
    }
    assert(src@.take(src.len() as int) =~= src@);
}

/// The handshake message for a torrent with the given info hash.
pub fn handshake_message(hash: &[u8]) -> (res: Vec<u8>)
    ensures
        res@ == handshake_bytes(hash@),
{
    let mut bytes: Vec<u8> = Vec::new();
    bytes.push(19u8);
    let name: Vec<u8> = vec![66u8, 105, 116, 84, 111, 114, 114, 101, 110, 116, 32, 112, 114, 111, 116, 111, 99, 111, 108];
    extend_bytes(&mut bytes, name.as_slice());
    let reserved: Vec<u8> = vec![0u8, 0, 0, 0, 0, 0, 0, 0];
    extend_bytes(&mut bytes, reserved.as_slice());
    extend_bytes(&mut bytes, hash);
    let id: Vec<u8> = vec![82u8, 98, 105, 116, 45, 83, 110, 53, 74, 53, 86, 71, 77, 53, 67, 107, 70, 99, 99, 69];
    extend_bytes(&mut bytes, id.as_slice());
    assert(name@ =~= protocol_name());
    assert(id@ =~= peer_id());
    assert(reserved@ =~= seq![0u8, 0, 0, 0, 0, 0, 0, 0]);
    assert(bytes@ =~= handshake_bytes(hash@));
    bytes
}

/// Size of the blocks that pieces are requested in.
pub const BLOCK_STEP: u32 = 16384;

/// The `(begin, length)` of each block request for a piece of `len` bytes,
/// from offset `from` on: a block of `BLOCK_STEP` bytes while one fits below
/// `len`, each next block starting one byte past the last one's end, then
/// the rest up to `len`. `None` where the offsets leave the range of `u32`.
pub open spec fn request_plan(len: int, from: int) -> Option<Seq<(u32, u32)>>
    decreases len + 1 - from,
{
    let end = from + BLOCK_STEP;
    if end > len {
        if 0 <= from <= len {
            Some(seq![(from as u32, (len - from) as u32)])
        } else {
            None
        }
    } else if end + BLOCK_STEP + 1 > u32::MAX || from < 0 {
        None
    } else {
        match request_plan(len, end + 1) {
            Some(rest) => Some(seq![(from as u32, BLOCK_STEP)] + rest),
            None => None,
        }
    }
}

/// The plan from the `k`-th block on: block `j` starts at `j * 16385` and
/// holds `BLOCK_STEP` bytes, the last holds the rest up to `len`.
proof fn lemma_request_plan_from(len: int, k: int)
    requires
        0 <= len,
        len + 2 * 16385 <= u32::MAX,
        len % 16385 != 16384,
        0 <= k <= len / 16385,
    ensures
        request_plan(len, k * 16385) matches Some(plan) && {
            &&& plan.len() == len / 16385 - k + 1
            &&& forall|j: int|
                0 <= j < len / 16385 - k ==> #[trigger] plan[j] == (
                    ((k + j) * 16385) as u32,
                    BLOCK_STEP,
                )
            &&& plan[len / 16385 - k] == (
                (16385 * (len / 16385)) as u32,
                (len - 16385 * (len / 16385)) as u32,
            )
        },
    decreases len / 16385 - k,
{
    let q = len / 16385;
    let from = k * 16385;
    assert(len == q * 16385 + len % 16385);
    if k == q {
        assert(from + BLOCK_STEP > len);
    } else {
        assert(from + BLOCK_STEP <= len);
        lemma_request_plan_from(len, k + 1);
        assert((k + 1) * 16385 == from + BLOCK_STEP + 1);
        let rest = request_plan(len, (k + 1) * 16385).unwrap();
        let plan = seq![(from as u32, BLOCK_STEP)] + rest;
        assert(request_plan(len, from) == Some(plan));
        assert forall|j: int| 0 <= j < q - k implies #[trigger] plan[j] == (
            ((k + j) * 16385) as u32,
            BLOCK_STEP,
        ) by {
            if j > 0 {
                assert(plan[j] == rest[j - 1]);
            }
        }
        assert(plan[q - k] == rest[q - k - 1]);
    }
}

/// The plan for a piece of `len` bytes exists whenever every offset fits in
/// a `u32` and the last block is not empty-past-the-end: the `k`-th block
/// starts at `k * 16385` and holds 16384 bytes for each `k` below
/// `len / 16385`, and one last block holds the rest up to `len`.
pub proof fn lemma_request_plan(len: u32)
    requires
        len + 2 * 16385 <= u32::MAX,
        len % 16385 != 16384,
    ensures
        request_plan(len as int, 0) matches Some(plan) && {
            &&& plan.len() == len / 16385 + 1
            &&& forall|k: int|
                0 <= k < len / 16385 ==> #[trigger] plan[k] == ((k * 16385) as u32, 16384u32)
            &&& plan[(len / 16385) as int] == (
                (16385 * (len / 16385)) as u32,
                (len - 16385 * (len / 16385)) as u32,
            )
        },
{
    lemma_request_plan_from(len as int, 0);
    let plan = request_plan(len as int, 0).unwrap();
    assert forall|k: int| 0 <= k < len / 16385 implies #[trigger] plan[k] == (
        (k * 16385) as u32,
        16384u32,
    ) by {
        assert(plan[k] == (((0 + k) * 16385) as u32, BLOCK_STEP));
    }
}

/// The block requests for a piece of `len` bytes; `None` where an offset
/// would leave the range of `u32`.
pub fn piece_requests(len: u32) -> (res: Option<Vec<(u32, u32)>>)
    ensures
        res is Some <==> request_plan(len as int, 0) is Some,
        res matches Some(r) ==> request_plan(len as int, 0) == Some(r@),
{
    let step: u32 = BLOCK_STEP;
    let mut end: u32 = step;
    let mut from: u32 = 0;
    let mut out: Vec<(u32, u32)> = Vec::new();
    loop
        invariant
            end == from + step,
            step == BLOCK_STEP,
            request_plan(len as int, 0) == match request_plan(len as int, from as int) {
                Some(rest) => Some(out@ + rest),
                None => None,
            },
        decreases len + 1 - from,
    {
        if end > len {
            if from > len {
                return None;
            }
            out.push((from, len - from));
            return Some(out);
        } else {
            if end > u32::MAX - step - 1 {
                return None;
            }
            let ghost old_out = out@;
            let ghost old_from = from;
            out.push((from, step));
            from = end + 1;
            end = end + step + 1;
            proof {
                if let Some(rest) = request_plan(len as int, from as int) {
                    assert(old_out + (seq![(old_from, BLOCK_STEP)] + rest) =~= out@ + rest);
                }
            }
        }
    }
}

/// The number that four big-endian bytes spell as an `i32` (two's
/// complement).
pub open spec fn be_i32_value(b: Seq<u8>) -> int {
    let u = b[0] * 0x1000000 + b[1] * 0x10000 + b[2] * 0x100 + b[3];
    if u >= 0x80000000 {
        u - 0x100000000
    } else {
        u
    }
}

/// A length prefix written big-endian reads back as the same number.
pub proof fn lemma_be_i32_reads_be_bytes(x: u32)
    requires
        x < 0x80000000,
    ensures
        be_i32_value(be_bytes(x)) == x,
{
    lemma_be_bytes_value(x);
}

/// Reads a length prefix: four big-endian bytes as an `i32`.
pub fn be_i32(b: [u8; 4]) -> (res: i32)
    ensures
        res as int == be_i32_value(b@),
{
    let u: u32 = (b[0] as u32) * 0x1000000 + (b[1] as u32) * 0x10000 + (b[2] as u32) * 0x100
        + (b[3] as u32);
    if u >= 0x80000000 {
        ((u as i64) - 0x100000000i64) as i32
    } else {
        u as i32
    }
}

/// How many bytes follow the id of a reply with the given length prefix:
/// `prefix - 1` for a bitfield (id 5) and for a piece (id 7, its index, its
/// offset and its block), none for other ids.
pub fn reply_body_len(prefix: i32, id: u8) -> (res: usize)
    requires
        id == 5 ==> prefix >= 1,
        id == 7 ==> prefix >= 9,
    ensures
        res == (if id == 5 || id == 7 {
            prefix - 1
        } else {
            0
        }),
{
    if id == 5 {
        (prefix - 1) as usize
    } else if id == 7 {
        ((prefix - 9) as usize) + 8
    } else {
        0
    }
}

/// The message a reply forms: its prefix and id as read, and the bytes read
/// after the id as payload for a piece (id 7) only.
pub fn reply_message(prefix: [u8; 4], id: Option<u8>, body: Vec<u8>) -> (res: Msg)
    ensures
        res.prefix == prefix,
        res.id == id,
        id == Some(7u8) ==> (res.payload matches Some(p) && p.data@ == body@),
        id != Some(7u8) ==> res.payload is None,
{
    if id == Some(7u8) {
        Msg { prefix, id, payload: Some(Payload { data: body }) }
    } else {
        Msg { prefix, id, payload: None }
    }
}

/// What the download loop does with a reply, by its message id.
pub enum ReplyAction {
    /// Unchoke (id 1): read the file info and request the blocks.
    RequestBlocks,
    /// Bitfield (id 5).
    BitfieldReceived,
    /// Piece (id 7).
    PieceReceived,
    /// Another id.
    Unprocessable(u8),
    /// Keep-alive (no id).
    KeepAlive,
}

/// The action for a reply with the given id.
pub fn reply_action(id: Option<u8>) -> (res: ReplyAction)
    ensures
        id == Some(1u8) ==> res is RequestBlocks,
        id == Some(5u8) ==> res is BitfieldReceived,
        id == Some(7u8) ==> res is PieceReceived,
        id matches Some(v) ==> (v == 1 || v == 5 || v == 7 || res == ReplyAction::Unprocessable(v)),
        id is None ==> res is KeepAlive,
{
    match id {
        Some(1) => ReplyAction::RequestBlocks,
        Some(5) => ReplyAction::BitfieldReceived,
        Some(7) => ReplyAction::PieceReceived,
        Some(value) => ReplyAction::Unprocessable(value),
        None => ReplyAction::KeepAlive,
    }
}

/// How many replies the download loop reads before it stops.
pub const MAX_REPLIES: u32 = 10;

/// Whether the download loop reads another reply after `handled` replies.
pub fn reads_another_reply(handled: u32) -> (res: bool)
    ensures
        res == (handled < MAX_REPLIES),
{
    handled < MAX_REPLIES
}

} // verus!
