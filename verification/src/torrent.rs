//! What the client reads out of torrent meta-info and tracker replies.

use crypto::digest::Digest;
use crypto::sha1::Sha1;
use vstd::prelude::*;
use vstd::string::StringExecFns;
use vstd::utf8::{decode_utf8, valid_utf8};

use crate::data_type::{DataType, Dict, list_view, value_get};
use crate::encoder::{encode, spec_encode};
use crate::number::{
    all_digits, digits_value, int_digits, integer_to_digits, lemma_nat_digits,
    lemma_parse_int_digits, nat_digits, nat_to_digits, parse_i64,
};
use crate::peer_wire_protocol::SingleFileInfo;
use crate::text::{
    ascii_text, char_codes, lemma_char_codes_ascii_text, lossy_utf8, push_ascii, push_char,
    utf8_lossy, utf8_str,
};
use crate::value::{Value, bytes_lt, dict_insert, dict_lookup};

verus! {

/// The key `info`.
pub open spec fn info_key() -> Seq<u8> {
    seq![105u8, 110, 102, 111]
}

/// The key `announce`.
pub open spec fn announce_key() -> Seq<u8> {
    seq![97u8, 110, 110, 111, 117, 110, 99, 101]
}

/// The key `peers`.
pub open spec fn peers_key() -> Seq<u8> {
    seq![112u8, 101, 101, 114, 115]
}

/// The key `ip`.
pub open spec fn ip_key() -> Seq<u8> {
    seq![105u8, 112]
}

/// The key `port`.
pub open spec fn port_key() -> Seq<u8> {
    seq![112u8, 111, 114, 116]
}

/// The key `piece length`.
pub open spec fn piece_length_key() -> Seq<u8> {
    seq![112u8, 105, 101, 99, 101, 32, 108, 101, 110, 103, 116, 104]
}

/// The key `pieces`.
pub open spec fn pieces_key() -> Seq<u8> {
    seq![112u8, 105, 101, 99, 101, 115]
}

/// The key `name`.
pub open spec fn name_key() -> Seq<u8> {
    seq![110u8, 97, 109, 101]
}

/// The key `length`.
pub open spec fn length_key() -> Seq<u8> {
    seq![108u8, 101, 110, 103, 116, 104]
}

/// The bencoded `info` dictionary of a torrent, the bytes that its info hash
/// is taken of.
pub fn get_info(data: &DataType) -> (res: Vec<u8>)
    requires
        value_get(data@, info_key()) is Some,
    ensures
        res@ == spec_encode(value_get(data@, info_key()).unwrap()),
{
    let key: Vec<u8> = vec![105u8, 110, 102, 111];
    assert(key@ =~= info_key());
    encode(data.get_dict_value(key.as_slice()).unwrap())
}

/// The SHA-1 digest of the bytes.
pub uninterp spec fn sha1_digest(data: Seq<u8>) -> Seq<u8>;

/// Calls `crypto::sha1::Sha1` (`new`, `input`, `result`). Trusted: the 20
/// bytes are the SHA-1 digest of the input, named `sha1_digest`. Inputs of
/// 2^61 bytes or more are left out: the hasher panics when their bit count
/// overflows a `u64`.
#[verifier::external_body]
fn hash_info(info: &[u8]) -> (res: [u8; 20])
    requires
        info.len() < 0x2000000000000000,
    ensures
        res@ == sha1_digest(info@),
{
    let mut hasher = Sha1::new();
    hasher.input(info);
    let mut out = [0u8; 20];
    hasher.result(&mut out);
    out
}

/// The info hash of a torrent: the SHA-1 digest of its bencoded `info`
/// dictionary.
pub fn info_hash(torrent: &DataType) -> (res: [u8; 20])
    requires
        value_get(torrent@, info_key()) is Some,
        spec_encode(value_get(torrent@, info_key()).unwrap()).len() < 0x2000000000000000,
    ensures
        res@ == sha1_digest(spec_encode(value_get(torrent@, info_key()).unwrap())),
{
    let info = get_info(torrent);
    hash_info(info.as_slice())
}

/// An uppercase hexadecimal digit.
pub open spec fn hex_digit(n: int) -> char {
    if n < 10 {
        (48 + n) as char
    } else {
        (55 + n) as char
    }
}

/// The percent-encoding of one byte: `%` and two uppercase hex digits.
pub open spec fn percent_byte_text(b: u8) -> Seq<char> {
    seq!['%', hex_digit((b / 16) as int), hex_digit((b % 16) as int)]
}

/// Every byte percent-encoded.
pub open spec fn percent_text(data: Seq<u8>) -> Seq<char>
    decreases data.len(),
{
    if data.len() == 0 {
        Seq::empty()
    } else {
        percent_text(data.drop_last()) + percent_byte_text(data.last())
    }
}

/// The number an uppercase hexadecimal digit stands for; -1 for any other
/// character.
pub open spec fn upper_hex_value(c: char) -> int {
    if '0' <= c && c <= '9' {
        c as int - 48
    } else if 'A' <= c && c <= 'F' {
        c as int - 55
    } else {
        -1
    }
}

/// Percent-encoding writes three characters per byte: `%` and two uppercase
/// hexadecimal digits that spell the byte, high digit first.
pub proof fn lemma_percent_text(data: Seq<u8>)
    ensures
        percent_text(data).len() == 3 * data.len(),
        forall|i: int|
            0 <= i < data.len() ==> {
                &&& #[trigger] percent_text(data)[3 * i] == '%'
                &&& upper_hex_value(percent_text(data)[3 * i + 1]) * 16 + upper_hex_value(
                    percent_text(data)[3 * i + 2],
                ) == data[i]
                &&& 0 <= upper_hex_value(percent_text(data)[3 * i + 1])
                &&& 0 <= upper_hex_value(percent_text(data)[3 * i + 2])
            },
    decreases data.len(),
{
    if data.len() > 0 {
        let front = data.drop_last();
        lemma_percent_text(front);
        let t = percent_text(data);
        let last = data.last();
        assert(t == percent_text(front) + percent_byte_text(last));
        assert forall|i: int| 0 <= i < data.len() implies {
            &&& #[trigger] percent_text(data)[3 * i] == '%'
            &&& upper_hex_value(percent_text(data)[3 * i + 1]) * 16 + upper_hex_value(
                percent_text(data)[3 * i + 2],
            ) == data[i]
            &&& 0 <= upper_hex_value(percent_text(data)[3 * i + 1])
            &&& 0 <= upper_hex_value(percent_text(data)[3 * i + 2])
        } by {
            if i < front.len() {
                assert(t[3 * i] == percent_text(front)[3 * i]);
                assert(t[3 * i + 1] == percent_text(front)[3 * i + 1]);
                assert(t[3 * i + 2] == percent_text(front)[3 * i + 2]);
                assert(data[i] == front[i]);
            } else {
                assert(i == front.len());
                let hi = (last / 16) as int;
                let lo = (last % 16) as int;
                assert(t[3 * i + 1] == hex_digit(hi));
                assert(t[3 * i + 2] == hex_digit(lo));
                assert(upper_hex_value(hex_digit(hi)) == hi);
                assert(upper_hex_value(hex_digit(lo)) == lo);
            }
        }
    }
}

/// Calls `percent_encoding::percent_encode_byte`. Trusted: the text is `%`
/// followed by the byte's two uppercase hexadecimal digits, as the crate's
/// table holds.
#[verifier::external_body]
fn percent_encode_byte(byte: u8) -> (res: &'static str)
    ensures
        res@ == percent_byte_text(byte),
{
    percent_encoding::percent_encode_byte(byte)
}

/// Every byte of `data` as `%XX`.
pub fn percent_encode(data: &[u8]) -> (res: String)
    ensures
        res@ == percent_text(data@),
{
    let mut res = String::new();
    let mut i: usize = 0;
    while i < data.len()
        invariant
            i <= data.len(),
            res@ == percent_text(data@.take(i as int)),
        decreases data.len() - i,
    {
        res.append(percent_encode_byte(data[i]));
        i = i + 1;
        assert(data@.take(i as int).drop_last() =~= data@.take(i - 1));
    }
    assert(data@.take(data.len() as int) =~= data@);
    res
}

/// The tracker's URL: the `announce` byte string of the meta-info, as UTF-8.
pub fn get_announce_url(data: &DataType) -> (res: String)
    requires
        value_get(data@, announce_key()) matches Some(Value::Bytes(b)) && valid_utf8(b),
    ensures
        value_get(data@, announce_key()) matches Some(Value::Bytes(b)) && res@ == decode_utf8(b),
{
    let key: Vec<u8> = vec![97u8, 110, 110, 111, 117, 110, 99, 101];
    assert(key@ =~= announce_key());
    let encoded_announce_url = data.get_dict_value(key.as_slice()).unwrap().get_string_value().unwrap();
    let text = utf8_str(encoded_announce_url.as_slice()).unwrap();
    String::from_str(text)
}

/// The dotted decimal text of the address in the first four bytes.
pub open spec fn ip_text(c: Seq<u8>) -> Seq<u8> {
    nat_digits(c[0] as nat) + seq![46u8] + nat_digits(c[1] as nat) + seq![46u8] + nat_digits(
        c[2] as nat,
    ) + seq![46u8] + nat_digits(c[3] as nat)
}

/// A peer in compact form (four address bytes, two big-endian port bytes)
/// as a dictionary of `ip` and `port`.
pub open spec fn compact_peer(c: Seq<u8>) -> Value {
    Value::Dict(
        seq![
            (ip_key(), Value::Bytes(ip_text(c))),
            (port_key(), Value::Int((c[4] * 256 + c[5]) as i64)),
        ],
    )
}

/// The peers of a compact peer list, six bytes each.
pub open spec fn compact_peers(b: Seq<u8>) -> Seq<Value> {
    Seq::new(b.len() / 6, |i: int| compact_peer(b.subrange(6 * i, 6 * i + 6)))
}

/// The peers in a compact peer list as dictionaries of `ip` and `port`.
pub fn convert_string_to_list(value: &[u8]) -> (res: Vec<DataType>)
    requires
        value.len() % 6 == 0,
    ensures
        list_view(res@) == compact_peers(value@),
{
    let mut ips = Vec::<DataType>::new();
    let mut pos: usize = 0;
    while pos < value.len()
        invariant
            pos <= value.len(),
            pos % 6 == 0,
            value.len() % 6 == 0,
            ips@.len() == pos / 6,
            forall|j: int|
                0 <= j < ips@.len() ==> (#[trigger] ips@[j])@ == compact_peer(
                    value@.subrange(6 * j, 6 * j + 6),
                ),
        decreases value.len() - pos,
    {
        let ghost chunk = value@.subrange(pos as int, pos + 6);
        let mut ip: Vec<u8> = nat_to_digits(value[pos] as u64);
        ip.push(46u8);
        let mut part = nat_to_digits(value[pos + 1] as u64);
        ip.append(&mut part);
        ip.push(46u8);
        let mut part = nat_to_digits(value[pos + 2] as u64);
        ip.append(&mut part);
        ip.push(46u8);
        let mut part = nat_to_digits(value[pos + 3] as u64);
        ip.append(&mut part);
        assert(ip@ =~= ip_text(chunk));
        let port: i64 = (value[pos + 4] as i64) * 256 + (value[pos + 5] as i64);
        let mut peer_info = Dict::new();
        let ip_name: Vec<u8> = vec![105u8, 112];
        let port_name: Vec<u8> = vec![112u8, 111, 114, 116];
        assert(ip_name@ =~= ip_key());
        assert(port_name@ =~= port_key());
        peer_info.insert(ip_name, DataType::ByteString(ip));
        peer_info.insert(port_name, DataType::Integer(port));
        proof {
            let e1 = dict_insert(Seq::empty(), ip_key(), Value::Bytes(ip_text(chunk)));
            assert(e1 =~= seq![(ip_key(), Value::Bytes(ip_text(chunk)))]);
            assert(bytes_lt(ip_key(), port_key()));
            crate::value::lemma_bytes_lt_trichotomy(ip_key(), port_key());
            assert(ip_key() != port_key()) by {
                assert(ip_key()[0] != port_key()[0]);
            }
            assert(e1.drop_first() =~= Seq::<(Seq<u8>, Value)>::empty());
            let pv = Value::Int((chunk[4] * 256 + chunk[5]) as i64);
            assert(chunk[4] == value@[pos + 4] && chunk[5] == value@[pos + 5]);
            assert(!bytes_lt(port_key(), ip_key()));
            assert(dict_insert(e1.drop_first(), port_key(), pv) == seq![(port_key(), pv)]);
            assert(dict_insert(e1, port_key(), pv) =~= seq![
                (ip_key(), Value::Bytes(ip_text(chunk))),
                (port_key(), pv),
            ]);
            assert(peer_info@ =~= seq![
                (ip_key(), Value::Bytes(ip_text(chunk))),
                (port_key(), Value::Int((chunk[4] * 256 + chunk[5]) as i64)),
            ]);
        }
        let ghost k = ips@.len() as int;
        ips.push(DataType::Dictionary(peer_info));
        assert(6 * k == pos);
        pos = pos + 6;
    }
    assert(list_view(ips@) =~= compact_peers(value@));
    ips
}

/// The peers that a tracker reply lists: a list as it stands, a compact byte
/// string as dictionaries, anything else as the single integer 0.
pub open spec fn peers_of(peers: Value) -> Seq<Value> {
    match peers {
        Value::List(items) => items,
        Value::Bytes(b) => compact_peers(b),
        _ => seq![Value::Int(0)],
    }
}

/// The peers of a tracker reply.
pub fn get_peers(data: &DataType) -> (res: Vec<DataType>)
    requires
        value_get(data@, peers_key()) is Some,
        value_get(data@, peers_key()) matches Some(Value::Bytes(b)) ==> b.len() % 6 == 0,
    ensures
        list_view(res@) == peers_of(value_get(data@, peers_key()).unwrap()),
{
    let key: Vec<u8> = vec![112u8, 101, 101, 114, 115];
    assert(key@ =~= peers_key());
    match data.get_dict_value(key.as_slice()).unwrap() {
        DataType::List(value) => {
            let mut res: Vec<DataType> = Vec::with_capacity(value.len());
            let mut i: usize = 0;
            while i < value.len()
                invariant
                    i <= value.len(),
                    res@.len() == i,
                    forall|j: int| 0 <= j < i ==> (#[trigger] res@[j])@ == value@[j]@,
                decreases value.len() - i,
            {
                res.push(value[i].clone());
                i = i + 1;
            }
            assert(list_view(res@) =~= list_view(value@));
            res
        },
        DataType::ByteString(value) => convert_string_to_list(value.as_slice()),
        _ => {
            let res = vec![DataType::Integer(0)];
            assert(list_view(res@) =~= seq![Value::Int(0)]);
            res
        },
    }
}

/// `text` is four non-empty runs of decimal digits separated by `.`, the
/// runs spelling the four bytes of `addr` in order.
pub open spec fn is_dotted_quad(text: Seq<u8>, addr: Seq<u8>) -> bool {
    exists|d0: Seq<u8>, d1: Seq<u8>, d2: Seq<u8>, d3: Seq<u8>|
        #![trigger d0 + seq![46u8] + d1 + seq![46u8] + d2 + seq![46u8] + d3]
        {
            &&& text == d0 + seq![46u8] + d1 + seq![46u8] + d2 + seq![46u8] + d3
            &&& d0.len() > 0 && all_digits(d0) && digits_value(d0) == addr[0]
            &&& d1.len() > 0 && all_digits(d1) && digits_value(d1) == addr[1]
            &&& d2.len() > 0 && all_digits(d2) && digits_value(d2) == addr[2]
            &&& d3.len() > 0 && all_digits(d3) && digits_value(d3) == addr[3]
        }
}

/// The peers of a tracker reply: a listed peer set is taken as it stands,
/// element for element; a compact one gives one peer per six bytes, whose
/// `ip` spells the first four bytes as a dotted quad and whose `port` is the
/// last two bytes read big-endian.
pub proof fn lemma_peers_of(peers: Value)
    ensures
        peers matches Value::List(items) ==> peers_of(peers) == items,
        peers matches Value::Bytes(b) ==> peers_of(peers).len() == b.len() / 6 && forall|i: int|
            0 <= i < b.len() / 6 ==> {
                &&& value_get(#[trigger] peers_of(peers)[i], port_key()) == Some(
                    Value::Int((b[6 * i + 4] * 256 + b[6 * i + 5]) as i64),
                )
                &&& value_get(peers_of(peers)[i], ip_key()) matches Some(Value::Bytes(t))
                    && is_dotted_quad(t, b.subrange(6 * i, 6 * i + 4))
            },
{
    if let Value::Bytes(b) = peers {
        assert forall|i: int| 0 <= i < b.len() / 6 implies {
            &&& value_get(#[trigger] peers_of(peers)[i], port_key()) == Some(
                Value::Int((b[6 * i + 4] * 256 + b[6 * i + 5]) as i64),
            )
            &&& value_get(peers_of(peers)[i], ip_key()) matches Some(Value::Bytes(t))
                && is_dotted_quad(t, b.subrange(6 * i, 6 * i + 4))
        } by {
            assert(6 * i + 6 <= b.len()) by (nonlinear_arith)
                requires
                    0 <= i < b.len() / 6,
            ;
            let c = b.subrange(6 * i, 6 * i + 6);
            assert(peers_of(peers)[i] == compact_peer(c));
            let entries = seq![
                (ip_key(), Value::Bytes(ip_text(c))),
                (port_key(), Value::Int((c[4] * 256 + c[5]) as i64)),
            ];
            assert(ip_key()[1] != port_key()[1]);
            assert(entries[0].0 != port_key());
            assert(entries.drop_first()[0] == entries[1]);
            assert(entries.drop_first().len() == 1);
            assert(dict_lookup(entries.drop_first(), port_key()) == Some(entries[1].1));
            assert(dict_lookup(entries, port_key()) == Some(entries[1].1));
            assert(dict_lookup(entries, ip_key()) == Some(entries[0].1));
            assert(c[4] == b[6 * i + 4] && c[5] == b[6 * i + 5]);
            let a = b.subrange(6 * i, 6 * i + 4);
            let d0 = nat_digits(c[0] as nat);
            let d1 = nat_digits(c[1] as nat);
            let d2 = nat_digits(c[2] as nat);
            let d3 = nat_digits(c[3] as nat);
            lemma_nat_digits(c[0] as nat);
            lemma_nat_digits(c[1] as nat);
            lemma_nat_digits(c[2] as nat);
            lemma_nat_digits(c[3] as nat);
            assert(a[0] == c[0] && a[1] == c[1] && a[2] == c[2] && a[3] == c[3]);
            assert(ip_text(c) == d0 + seq![46u8] + d1 + seq![46u8] + d2 + seq![46u8] + d3);
        }
    }
}

/// The address text of a peer is its `ip` as text, `:`, then text that
/// parses back to its whole `port`.
pub proof fn lemma_peer_address_text(peer: Value)
    requires
        is_peer_address(peer),
    ensures
        value_get(peer, ip_key()) matches Some(Value::Bytes(ip)) && value_get(peer, port_key())
            matches Some(Value::Int(port)) && {
            let t = peer_address_text(peer);
            let n = decode_utf8(ip).len() as int;
            &&& t.subrange(0, n) == decode_utf8(ip)
            &&& t[n] == ':'
            &&& parse_i64(char_codes(t.skip(n + 1))) == Some(port)
        },
{
    if let Some(Value::Bytes(ip)) = value_get(peer, ip_key()) {
        if let Some(Value::Int(port)) = value_get(peer, port_key()) {
            let t = peer_address_text(peer);
            let name = decode_utf8(ip);
            let n = name.len() as int;
            let digits = ascii_text(int_digits(port as int));
            assert(t == name + seq![':'] + digits);
            assert(t.subrange(0, n) =~= name);
            assert(t.skip(n + 1) =~= digits);
            lemma_char_codes_ascii_text(int_digits(port as int));
            lemma_parse_int_digits(port);
        }
    }
}

/// The `ip:port` text of a peer dictionary.
pub open spec fn peer_address_text(peer: Value) -> Seq<char> {
    match (value_get(peer, ip_key()), value_get(peer, port_key())) {
        (Some(Value::Bytes(ip)), Some(Value::Int(port))) => decode_utf8(ip) + seq![':']
            + ascii_text(int_digits(port as int)),
        _ => Seq::empty(),
    }
}

/// A peer dictionary with a UTF-8 `ip` and an integer `port`.
pub open spec fn is_peer_address(peer: Value) -> bool {
    &&& value_get(peer, ip_key()) matches Some(Value::Bytes(ip)) && valid_utf8(ip)
    &&& value_get(peer, port_key()) is Some
    &&& value_get(peer, port_key()).unwrap() is Int
}

/// The `ip:port` text of each peer.
pub fn collect_peers_info(peers: &[DataType]) -> (res: Vec<String>)
    requires
        forall|i: int| 0 <= i < peers@.len() ==> is_peer_address(#[trigger] peers@[i]@),
    ensures
        res@.len() == peers@.len(),
        forall|i: int|
            0 <= i < peers@.len() ==> (#[trigger] res@[i])@ == peer_address_text(peers@[i]@),
{
    let mut addresses: Vec<String> = Vec::new();
    let ip_name: Vec<u8> = vec![105u8, 112];
    let port_name: Vec<u8> = vec![112u8, 111, 114, 116];
    assert(ip_name@ =~= ip_key());
    assert(port_name@ =~= port_key());
    let mut i: usize = 0;
    while i < peers.len()
        invariant
            i <= peers@.len(),
            ip_name@ == ip_key(),
            port_name@ == port_key(),
            forall|j: int| 0 <= j < peers@.len() ==> is_peer_address(#[trigger] peers@[j]@),
            addresses@.len() == i,
            forall|j: int|
                0 <= j < i ==> (#[trigger] addresses@[j])@ == peer_address_text(peers@[j]@),
        decreases peers.len() - i,
    {
        let peer = &peers[i];
        assert(is_peer_address(peers@[i as int]@));
        let ip = peer.get_dict_value(ip_name.as_slice()).unwrap().get_string_value().unwrap();
        let port = peer.get_dict_value(port_name.as_slice()).unwrap().get_integer_value().unwrap();
        let mut text = String::from_str(utf8_str(ip.as_slice()).unwrap());
        push_char(&mut text, ':');
        let digits = integer_to_digits(*port);
        push_ascii(&mut text, digits.as_slice());
        addresses.push(text);
        i = i + 1;
    }
    addresses
}

/// Cutting an `i64` to 32 bits keeps its remainder modulo 2^32.
pub proof fn lemma_cut_to_u32(n: i64)
    ensures
        (n as u32) as int == (n as int) % 0x100000000,
{
    assert(((n as u32) as int) == (n as int) % 0x100000000) by (bit_vector);
}

/// What the `info` dictionary of a single-file torrent says: the piece
/// length and the file length (each cut to 32 bits), the piece hashes and
/// the file name (as lossily decoded UTF-8).
pub fn read_file_info(meta_info: &DataType) -> (res: SingleFileInfo)
    requires
        value_get(meta_info@, piece_length_key()) matches Some(Value::Int(_)),
        value_get(meta_info@, pieces_key()) matches Some(Value::Bytes(_)),
        value_get(meta_info@, name_key()) matches Some(Value::Bytes(_)),
        value_get(meta_info@, length_key()) matches Some(Value::Int(_)),
    ensures
        value_get(meta_info@, piece_length_key()) matches Some(Value::Int(n)) && res.piece_length
            == n as u32,
        value_get(meta_info@, pieces_key()) matches Some(Value::Bytes(b)) && res.pieces@ == b,
        value_get(meta_info@, name_key()) matches Some(Value::Bytes(b)) && res.name@ == lossy_utf8(
            b,
        ),
        value_get(meta_info@, length_key()) matches Some(Value::Int(n)) && res.length == n as u32,
        value_get(meta_info@, piece_length_key()) matches Some(Value::Int(n))
            && res.piece_length as int == (n as int) % 0x100000000,
        value_get(meta_info@, length_key()) matches Some(Value::Int(n)) && res.length as int == (
        n as int) % 0x100000000,
{
    let piece_length_name: Vec<u8> = vec![112u8, 105, 101, 99, 101, 32, 108, 101, 110, 103, 116, 104];
    let pieces_name: Vec<u8> = vec![112u8, 105, 101, 99, 101, 115];
    let name_name: Vec<u8> = vec![110u8, 97, 109, 101];
    let length_name: Vec<u8> = vec![108u8, 101, 110, 103, 116, 104];
    assert(piece_length_name@ =~= piece_length_key());
    assert(pieces_name@ =~= pieces_key());
    assert(name_name@ =~= name_key());
    assert(length_name@ =~= length_key());
    let piece_length = *meta_info.get_dict_value(piece_length_name.as_slice()).unwrap().get_integer_value().unwrap();
    let pieces = meta_info.get_dict_value(pieces_name.as_slice()).unwrap().get_string_value().unwrap();
    let name = meta_info.get_dict_value(name_name.as_slice()).unwrap().get_string_value().unwrap();
    let length = *meta_info.get_dict_value(length_name.as_slice()).unwrap().get_integer_value().unwrap();
    proof {
        lemma_cut_to_u32(piece_length);
        lemma_cut_to_u32(length);
    }
    SingleFileInfo {
        piece_length: piece_length as u32,
        pieces: crate::bytes::copy_bytes(pieces.as_slice()),
        name: utf8_lossy(name.as_slice()),
        length: length as u32,
    }
}

} // verus!
