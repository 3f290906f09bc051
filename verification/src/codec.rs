//! The wire codec: varint primitives, length-delimited fields, the announce
//! grammar, lowercase-hex device identities, and the subset of the station's
//! HTTP reply that this client reads. Every parser is specified by a spec
//! function of the raw bytes that it mirrors exactly.

use vstd::prelude::*;

use crate::model::DeviceId;

verus! {

// ---------------------------------------------------------------------------
// Varints.
// ---------------------------------------------------------------------------

/// A base-128 varint read at `pos`: the decoded value and the position
/// after it, or nothing when the bytes end early or the value would not
/// fit 64 bits.
pub open spec fn varint_at(bytes: Seq<u8>, pos: int, shift: u64, acc: u64) -> Option<(u64, int)>
    decreases bytes.len() - pos,
{
    if pos < 0 || pos >= bytes.len() || shift > 63 {
        None
    } else {
        let b = bytes[pos];
        let acc2 = acc | (((b & 0x7f) as u64) << shift);
        if b & 0x80 == 0x80 {
            varint_at(bytes, pos + 1, (shift + 7) as u64, acc2)
        } else {
            Some((acc2, pos + 1))
        }
    }
}

/// Read a varint; mirrors `varint_at` from shift zero.
pub fn parse_varint(bytes: &[u8], pos: usize) -> (r: Option<(u64, usize)>)
    ensures
        match r {
            Some((v, next)) => varint_at(bytes@, pos as int, 0, 0) == Some((v, next as int))
                && pos < next <= bytes@.len(),
            None => varint_at(bytes@, pos as int, 0, 0) is None,
        },
{
    parse_varint_from(bytes, pos, 0, 0)
}

fn parse_varint_from(bytes: &[u8], pos: usize, shift: u64, acc: u64) -> (r: Option<(u64, usize)>)
    ensures
        match r {
            Some((v, next)) => varint_at(bytes@, pos as int, shift, acc) == Some((v, next as int))
                && pos < next <= bytes@.len(),
            None => varint_at(bytes@, pos as int, shift, acc) is None,
        },
    decreases bytes@.len() - pos,
{
    if pos >= bytes.len() || shift > 63 {
        return None;
    }
    let b = bytes[pos];
    let acc2 = acc | (((b & 0x7f) as u64) << shift);
    if b & 0x80 == 0x80 {
        parse_varint_from(bytes, pos + 1, shift + 7, acc2)
    } else {
        Some((acc2, pos + 1))
    }
}

/// The base-128 encoding of a value, least significant group first.
pub open spec fn varint_enc(n: u64) -> Seq<u8>
    decreases n,
{
    if n < 0x80 {
        seq![n as u8]
    } else {
        seq![((n & 0x7f) | 0x80) as u8] + varint_enc(n / 0x80)
    }
}

/// Append the varint encoding of a value.
pub fn emit_varint(out: &mut Vec<u8>, n: u64)
    ensures
        final(out)@ == old(out)@ + varint_enc(n),
    decreases n,
{
    if n < 0x80 {
        out.push(n as u8);
        proof {
            assert(out@ =~= old(out)@ + varint_enc(n));
        }
    } else {
        let b = ((n % 0x80) as u8) | 0x80;
        proof {
            assert((n & 0x7f) == n % 0x80) by (bit_vector);
            assert(((n & 0x7f) | 0x80) < 256) by (bit_vector);
            assert((((n % 0x80) as u8) | 0x80) == ((n & 0x7f) | 0x80) as u8) by (bit_vector);
            assert(n / 0x80 < n) by (bit_vector)
                requires
                    n >= 0x80,
            ;
        }
        out.push(b);
        emit_varint(out, n / 0x80);
        proof {
            assert(out@ =~= old(out)@ + varint_enc(n));
        }
    }
}

proof fn lemma_varint_round_trip_at(bytes: Seq<u8>, pos: int, shift: u64, acc: u64, m: u64)
    requires
        0 <= pos,
        pos + varint_enc(m).len() <= bytes.len(),
        bytes.subrange(pos, pos + varint_enc(m).len()) == varint_enc(m),
        shift <= 63,
        m <= u64::MAX >> shift,
    ensures
        varint_at(bytes, pos, shift, acc) == Some(
            (acc | (m << shift), pos + varint_enc(m).len()),
        ),
    decreases m,
{
    assert(varint_enc(m).len() >= 1);
    let b = bytes[pos];
    assert(b == varint_enc(m)[0]) by {
        assert(bytes.subrange(pos, pos + varint_enc(m).len())[0] == bytes[pos]);
    }
    if m < 0x80 {
        assert(varint_enc(m) =~= seq![m as u8]);
        assert(b == m as u8);
        assert(b & 0x80 != 0x80 && (acc | (((b & 0x7f) as u64) << shift)) == (acc | (m << shift))
            && m == (b & 0x7f) as u64) by (bit_vector)
            requires
                m < 0x80 && b == m as u8,
        ;
    } else {
        assert(varint_enc(m)[0] == ((m & 0x7f) | 0x80) as u8);
        assert(b == ((m & 0x7f) | 0x80) as u8);
        assert(b & 0x80 == 0x80) by (bit_vector)
            requires
                b == ((m & 0x7f) | 0x80) as u8,
        ;
        let m2 = m / 0x80;
        assert(m2 < m && m2 == m >> 7) by (bit_vector)
            requires
                m >= 0x80 && m2 == m / 0x80,
        ;
        assert(shift <= 56 && m2 <= u64::MAX >> ((shift + 7) as u64)) by (bit_vector)
            requires
                m >= 0x80 && m <= u64::MAX >> shift && shift <= 63 && m2 == m >> 7,
        ;
        assert(bytes.subrange(pos + 1, pos + 1 + varint_enc(m2).len()) =~= varint_enc(m2)) by {
            assert(varint_enc(m) =~= seq![((m & 0x7f) | 0x80) as u8] + varint_enc(m2));
            assert forall|k: int| 0 <= k < varint_enc(m2).len() implies bytes.subrange(
                pos + 1,
                pos + 1 + varint_enc(m2).len(),
            )[k] == varint_enc(m2)[k] by {
                assert(bytes.subrange(pos, pos + varint_enc(m).len())[k + 1] == bytes[pos + k + 1]);
            }
        }
        lemma_varint_round_trip_at(bytes, pos + 1, (shift + 7) as u64, acc | (((b & 0x7f) as u64)
            << shift), m2);
        assert((acc | (((b & 0x7f) as u64) << shift)) | (m2 << ((shift + 7) as u64)) == (acc | (m
            << shift))) by (bit_vector)
            requires
                b == ((m & 0x7f) | 0x80) as u8 && m2 == m >> 7 && shift <= 56,
        ;
    }
}

/// The varint reader inverts the varint writer: whatever value is emitted
/// is read back whole, consuming exactly its bytes.
pub proof fn lemma_varint_round_trip(n: u64)
    ensures
        varint_at(varint_enc(n), 0, 0, 0) == Some((n, varint_enc(n).len() as int)),
{
    let bytes = varint_enc(n);
    assert(bytes.subrange(0, bytes.len() as int) =~= bytes);
    assert(n <= u64::MAX >> 0) by (bit_vector);
    lemma_varint_round_trip_at(bytes, 0, 0, 0, n);
    assert(0u64 | (n << 0u64) == n) by (bit_vector);
}

/// The length-delimited framing inverts its writer: a framed message is
/// read back as exactly its body, consuming the whole buffer.
pub proof fn lemma_delimited_round_trip(body: Seq<u8>)
    requires
        body.len() <= u64::MAX,
    ensures
        bytes_field_at(delimited_enc(body), 0) == Some(
            (body, delimited_enc(body).len() as int),
        ),
{
    let data = delimited_enc(body);
    let n64 = body.len() as u64;
    let prefix = varint_enc(n64);
    assert(data =~= prefix + body);
    assert(data.subrange(0, prefix.len() as int) =~= prefix);
    assert(n64 <= u64::MAX >> 0u64) by (bit_vector);
    lemma_varint_round_trip_at(data, 0, 0, 0, n64);
    assert(0u64 | (n64 << 0u64) == n64) by (bit_vector);
    assert(data.subrange(prefix.len() as int, data.len() as int) =~= body);
}

// ---------------------------------------------------------------------------
// Lowercase hex.
// ---------------------------------------------------------------------------

/// The lowercase hex digit for a value below sixteen.
pub open spec fn hex_digit(d: u8) -> char {
    if d == 0 {
        '0'
    } else if d == 1 {
        '1'
    } else if d == 2 {
        '2'
    } else if d == 3 {
        '3'
    } else if d == 4 {
        '4'
    } else if d == 5 {
        '5'
    } else if d == 6 {
        '6'
    } else if d == 7 {
        '7'
    } else if d == 8 {
        '8'
    } else if d == 9 {
        '9'
    } else if d == 10 {
        'a'
    } else if d == 11 {
        'b'
    } else if d == 12 {
        'c'
    } else if d == 13 {
        'd'
    } else if d == 14 {
        'e'
    } else {
        'f'
    }
}

/// The lowercase-hex text of a byte string: two digits for each byte, high
/// nibble first.
pub open spec fn hex_of(bytes: Seq<u8>) -> Seq<char> {
    Seq::new(
        bytes.len() * 2,
        |i: int|
            if i % 2 == 0 {
                hex_digit((bytes[i / 2] / 16) as u8)
            } else {
                hex_digit((bytes[i / 2] % 16) as u8)
            },
    )
}

fn hex_digit_str(d: u8) -> (r: &'static str)
    requires
        d < 16,
    ensures
        r@ == seq![hex_digit(d)],
{
    proof {
        reveal_strlit("0");
        reveal_strlit("1");
        reveal_strlit("2");
        reveal_strlit("3");
        reveal_strlit("4");
        reveal_strlit("5");
        reveal_strlit("6");
        reveal_strlit("7");
        reveal_strlit("8");
        reveal_strlit("9");
        reveal_strlit("a");
        reveal_strlit("b");
        reveal_strlit("c");
        reveal_strlit("d");
        reveal_strlit("e");
        reveal_strlit("f");
    }
    if d == 0 {
        "0"
    } else if d == 1 {
        "1"
    } else if d == 2 {
        "2"
    } else if d == 3 {
        "3"
    } else if d == 4 {
        "4"
    } else if d == 5 {
        "5"
    } else if d == 6 {
        "6"
    } else if d == 7 {
        "7"
    } else if d == 8 {
        "8"
    } else if d == 9 {
        "9"
    } else if d == 10 {
        "a"
    } else if d == 11 {
        "b"
    } else if d == 12 {
        "c"
    } else if d == 13 {
        "d"
    } else if d == 14 {
        "e"
    } else {
        "f"
    }
}

/// The lowercase-hex rendering of a byte string.
pub fn hex_encode(bytes: &[u8]) -> (r: String)
    ensures
        r@ == hex_of(bytes@),
{
    let mut s = String::new();
    let mut i: usize = 0;
    while i < bytes.len()
        invariant
            i <= bytes@.len(),
            s@ =~= hex_of(bytes@.take(i as int)),
        decreases bytes@.len() - i,
    {
        let b = bytes[i];
        s.append(hex_digit_str(b / 16));
        s.append(hex_digit_str(b % 16));
        proof {
            assert(s@ =~= hex_of(bytes@.take(i as int + 1)));
        }
        i = i + 1;
    }
    proof {
        assert(bytes@.take(bytes@.len() as int) =~= bytes@);
        assert(s@ =~= hex_of(bytes@));
    }
    s
}

// ---------------------------------------------------------------------------
// Length-delimited fields.
// ---------------------------------------------------------------------------

/// A length-delimited payload read at `pos`: its bytes and the position
/// after it.
pub open spec fn bytes_field_at(bytes: Seq<u8>, pos: int) -> Option<(Seq<u8>, int)> {
    match varint_at(bytes, pos, 0, 0) {
        Some((len, p2)) => if p2 + len <= bytes.len() {
            Some((bytes.subrange(p2, p2 + len), p2 + len))
        } else {
            None
        },
        None => None,
    }
}

/// Read a length-delimited payload; mirrors `bytes_field_at`.
pub fn parse_bytes_field(bytes: &[u8], pos: usize) -> (r: Option<(Vec<u8>, usize)>)
    ensures
        match r {
            Some((v, next)) => bytes_field_at(bytes@, pos as int) == Some((v@, next as int)) && pos
                < next <= bytes@.len(),
            None => bytes_field_at(bytes@, pos as int) is None,
        },
{
    let (len, p2) = match parse_varint(bytes, pos) {
        Some(r) => r,
        None => {
            return None;
        },
    };
    if len > (bytes.len() - p2) as u64 {
        return None;
    }
    let end = p2 + (len as usize);
    let mut v: Vec<u8> = Vec::new();
    let mut i = p2;
    while i < end
        invariant
            p2 <= i <= end <= bytes@.len(),
            v@ =~= bytes@.subrange(p2 as int, i as int),
        decreases end - i,
    {
        v.push(bytes[i]);
        proof {
            assert(bytes@.subrange(p2 as int, i as int + 1) =~= bytes@.subrange(
                p2 as int,
                i as int,
            ).push(bytes@[i as int]));
        }
        i = i + 1;
    }
    Some((v, end))
}

/// The wire form of a length-delimited field: tag, length, payload.
pub open spec fn field_bytes_enc(field: u64, payload: Seq<u8>) -> Seq<u8> {
    varint_enc((field * 8 + 2) as u64) + varint_enc(payload.len() as u64) + payload
}

/// The wire form of a varint field: tag, value.
pub open spec fn field_varint_enc(field: u64, v: u64) -> Seq<u8> {
    varint_enc((field * 8) as u64) + varint_enc(v)
}

/// Append a length-delimited field.
pub fn emit_bytes_field(out: &mut Vec<u8>, field: u64, payload: &[u8])
    requires
        field * 8 + 2 <= u64::MAX,
        payload@.len() <= u64::MAX,
    ensures
        final(out)@ == old(out)@ + field_bytes_enc(field, payload@),
{
    emit_varint(out, field * 8 + 2);
    emit_varint(out, payload.len() as u64);
    let mut i: usize = 0;
    let ghost mid = out@;
    while i < payload.len()
        invariant
            i <= payload@.len(),
            out@ =~= mid + payload@.take(i as int),
        decreases payload@.len() - i,
    {
        out.push(payload[i]);
        proof {
            assert(mid + payload@.take(i as int + 1) =~= (mid + payload@.take(i as int)).push(
                payload@[i as int],
            ));
        }
        i = i + 1;
    }
    proof {
        assert(payload@.take(payload@.len() as int) =~= payload@);
        assert(out@ =~= old(out)@ + field_bytes_enc(field, payload@));
    }
}

/// Append a varint field.
pub fn emit_varint_field(out: &mut Vec<u8>, field: u64, v: u64)
    requires
        field * 8 <= u64::MAX,
    ensures
        final(out)@ == old(out)@ + field_varint_enc(field, v),
{
    emit_varint(out, field * 8);
    emit_varint(out, v);
    proof {
        assert(out@ =~= old(out)@ + field_varint_enc(field, v));
    }
}

/// The wire form of a whole message: its length, then its fields.
pub open spec fn delimited_enc(body: Seq<u8>) -> Seq<u8> {
    varint_enc(body.len() as u64) + body
}

/// Wrap an encoded message body with its length prefix.
pub fn emit_delimited(body: &[u8]) -> (r: Vec<u8>)
    requires
        body@.len() <= u64::MAX,
    ensures
        r@ == delimited_enc(body@),
{
    let mut out: Vec<u8> = Vec::new();
    emit_varint(&mut out, body.len() as u64);
    let mut i: usize = 0;
    let ghost mid = out@;
    while i < body.len()
        invariant
            i <= body@.len(),
            out@ =~= mid + body@.take(i as int),
        decreases body@.len() - i,
    {
        out.push(body[i]);
        proof {
            assert(mid + body@.take(i as int + 1) =~= (mid + body@.take(i as int)).push(
                body@[i as int],
            ));
        }
        i = i + 1;
    }
    proof {
        assert(body@.take(body@.len() as int) =~= body@);
        assert(out@ =~= delimited_enc(body@));
    }
    out
}

/// The length-delimited status query the client posts: query type first,
/// then the sender's wall-clock time.
pub fn encode_status_query(query_type: u64, time: u64) -> (r: Vec<u8>)
    ensures
        r@ == delimited_enc(field_varint_enc(1, query_type) + field_varint_enc(2, time)),
{
    let mut body: Vec<u8> = Vec::new();
    emit_varint_field(&mut body, 1, query_type);
    emit_varint_field(&mut body, 2, time);
    let blen = body.len();
    proof {
        assert(blen <= usize::MAX);
        assert(body@.len() <= u64::MAX);
    }
    let r = emit_delimited(body.as_slice());
    r
}

/// The status query stamped with the present moment: the query type for a
/// status request, and whatever the clock answered (zero when it had no
/// answer), which is also returned.
pub fn status_query_now() -> (r: (u64, Vec<u8>))
    ensures
        r.1@ == delimited_enc(field_varint_enc(1, 1) + field_varint_enc(2, r.0)),
{
    let time = match crate::clock::unix_time() {
        Some(t) => t,
        None => 0,
    };
    (time, encode_status_query(1, time))
}

// ---------------------------------------------------------------------------
// The announce grammar.
// ---------------------------------------------------------------------------

/// A station's multicast announcement: a greeting carrying the port of its
/// HTTP service, or a goodbye.
#[derive(Debug)]
pub enum Announce {
    Hello(DeviceId, u16),
    Bye(DeviceId),
}

/// What an announce parse finds: the lowercase-hex identity, the announced
/// port, and whether the message was a greeting.
pub struct AnnounceV {
    pub device_hex: Seq<char>,
    pub port: u16,
    pub hello: bool,
}

/// The announce grammar: a length prefix, the identity bytes under tag one,
/// an optional port under tag four defaulting to eighty, and any trailing
/// fields marking a goodbye.
pub open spec fn announce_at(bytes: Seq<u8>) -> Option<AnnounceV> {
    match varint_at(bytes, 0, 0, 0) {
        None => None,
        Some((size, p1)) => match varint_at(bytes, p1, 0, 0) {
            None => None,
            Some((tag, p2)) => if tag / 8 != 1 {
                None
            } else {
                match bytes_field_at(bytes, p2) {
                    None => None,
                    Some((id_bytes, p3)) => {
                        let device_hex = hex_of(id_bytes);
                        if p3 >= bytes.len() {
                            Some(AnnounceV { device_hex, port: 80, hello: true })
                        } else {
                            match varint_at(bytes, p3, 0, 0) {
                                None => None,
                                Some((tag2, p4)) => if tag2 / 8 == 4 {
                                    match varint_at(bytes, p4, 0, 0) {
                                        None => None,
                                        Some((v, p5)) => Some(
                                            AnnounceV {
                                                device_hex,
                                                port: (v & 0xffff) as u16,
                                                hello: p5 >= bytes.len(),
                                            },
                                        ),
                                    }
                                } else {
                                    Some(
                                        AnnounceV {
                                            device_hex,
                                            port: 80,
                                            hello: p4 >= bytes.len(),
                                        },
                                    )
                                },
                            }
                        }
                    },
                }
            },
        },
    }
}

impl Announce {
    /// Parse one announce datagram; mirrors `announce_at`.
    pub fn parse(bytes: &[u8]) -> (r: Option<Announce>)
        ensures
            match r {
                Some(Announce::Hello(id, port)) => (announce_at(bytes@) matches Some(a) && a.hello
                    && a.device_hex == id@ && a.port == port),
                Some(Announce::Bye(id)) => (announce_at(bytes@) matches Some(a) && !a.hello
                    && a.device_hex == id@),
                None => announce_at(bytes@) is None,
            },
    {
        let (_size, p1) = match parse_varint(bytes, 0) {
            Some(r) => r,
            None => {
                return None;
            },
        };
        let (tag, p2) = match parse_varint(bytes, p1) {
            Some(r) => r,
            None => {
                return None;
            },
        };
        if tag / 8 != 1 {
            return None;
        }
        let (id_bytes, p3) = match parse_bytes_field(bytes, p2) {
            Some(r) => r,
            None => {
                return None;
            },
        };
        let device_id = DeviceId(hex_encode(id_bytes.as_slice()));
        if p3 >= bytes.len() {
            return Some(Announce::Hello(device_id, 80));
        }
        let (tag2, p4) = match parse_varint(bytes, p3) {
            Some(r) => r,
            None => {
                return None;
            },
        };
        if tag2 / 8 == 4 {
            let (v, p5) = match parse_varint(bytes, p4) {
                Some(r) => r,
                None => {
                    return None;
                },
            };
            let port = (v & 0xffff) as u16;
            proof {
                assert((v & 0xffff) <= 0xffff) by (bit_vector);
            }
            if p5 >= bytes.len() {
                Some(Announce::Hello(device_id, port))
            } else {
                Some(Announce::Bye(device_id))
            }
        } else {
            if p4 >= bytes.len() {
                Some(Announce::Hello(device_id, 80))
            } else {
                Some(Announce::Bye(device_id))
            }
        }
    }

    /// The station identity the announcement names.
    pub fn device_id(&self) -> (r: &DeviceId)
        ensures
            r@ == (match self {
                Announce::Hello(id, _) => id@,
                Announce::Bye(id) => id@,
            }),
    {
        match self {
            Announce::Hello(id, _) => id,
            Announce::Bye(id) => id,
        }
    }

    /// The announced HTTP port; a goodbye names none.
    pub fn port(&self) -> (r: Option<u16>)
        ensures
            r == (match self {
                Announce::Hello(_, port) => Some(*port),
                Announce::Bye(_) => None::<u16>,
            }),
    {
        match self {
            Announce::Hello(_, port) => Some(*port),
            Announce::Bye(_) => None,
        }
    }
}

} // verus!
