//! The wire envelope: the sole frame format exchanged between peers.
//!
//! Every transmitted frame is an envelope holding a delivery id, an
//! acknowledgment flag, a must-acknowledge flag and the (already
//! serialized) application payload.  The layout is fixed: eight bytes of
//! little-endian delivery id, one byte per flag, then the payload as the
//! rest of the frame.

use vstd::prelude::*;

verus! {

/// Identifier assigned to a message at the moment it is sent, used to
/// correlate later acknowledgments.  Strictly increasing within a session.
pub type MessageId = u64;

/// Why a frame could not be decoded.  Never fatal: the offending frame is
/// dropped and a diagnostic is surfaced to the caller.
#[derive(Clone, Copy, Debug, PartialEq, Eq, Structural)]
pub enum CodecError {
    /// The frame is shorter than the fixed envelope header.
    TooShort,
    /// A flag byte held a value other than zero or one.
    BadFlagByte,
    /// The payload could not be serialized or deserialized by the
    /// application's message codec.
    Payload,
}

/// Number of bytes in the fixed envelope header.
pub const HEADER_LEN: usize = 10;

/// A decoded wire envelope.
pub struct Envelope {
    pub id: MessageId,
    pub is_ack: bool,
    pub must_ack: bool,
    pub payload: Vec<u8>,
}

/// The mathematical model of an [`Envelope`].
pub ghost struct EnvelopeView {
    pub id: MessageId,
    pub is_ack: bool,
    pub must_ack: bool,
    pub payload: Seq<u8>,
}

impl View for Envelope {
    type V = EnvelopeView;

    open spec fn view(&self) -> EnvelopeView {
        EnvelopeView {
            id: self.id,
            is_ack: self.is_ack,
            must_ack: self.must_ack,
            payload: self.payload@,
        }
    }
}

/// The single byte that encodes a flag.
pub open spec fn spec_flag_byte(b: bool) -> u8 {
    if b {
        1u8
    } else {
        0u8
    }
}

/// The eight little-endian bytes of a delivery id.
pub open spec fn spec_id_bytes(id: u64) -> Seq<u8> {
    seq![
        (id & 0xff) as u8,
        ((id >> 8) & 0xff) as u8,
        ((id >> 16) & 0xff) as u8,
        ((id >> 24) & 0xff) as u8,
        ((id >> 32) & 0xff) as u8,
        ((id >> 40) & 0xff) as u8,
        ((id >> 48) & 0xff) as u8,
        ((id >> 56) & 0xff) as u8,
    ]
}

/// The delivery id read back from eight little-endian bytes.
pub open spec fn spec_id_of_bytes(b: Seq<u8>) -> u64
    recommends
        b.len() == 8,
{
    (b[0] as u64) | ((b[1] as u64) << 8) | ((b[2] as u64) << 16) | ((b[3] as u64) << 24) | ((
    b[4] as u64) << 32) | ((b[5] as u64) << 40) | ((b[6] as u64) << 48) | ((b[7] as u64) << 56)
}

/// The exact bytes of an encoded envelope.
pub open spec fn spec_encode(id: u64, is_ack: bool, must_ack: bool, payload: Seq<u8>) -> Seq<u8> {
    spec_id_bytes(id) + seq![spec_flag_byte(is_ack), spec_flag_byte(must_ack)] + payload
}

/// What decoding a frame yields: the envelope it holds, or the exact error.
pub open spec fn spec_decode(b: Seq<u8>) -> Result<EnvelopeView, CodecError> {
    if b.len() < HEADER_LEN {
        Err(CodecError::TooShort)
    } else if !(b[8] == 0 || b[8] == 1) || !(b[9] == 0 || b[9] == 1) {
        Err(CodecError::BadFlagByte)
    } else {
        Ok(
            EnvelopeView {
                id: spec_id_of_bytes(b.subrange(0, 8)),
                is_ack: b[8] == 1,
                must_ack: b[9] == 1,
                payload: b.subrange(HEADER_LEN as int, b.len() as int),
            },
        )
    }
}

/// Encode an envelope.  Total: every id, flag pair and payload has a frame.
pub fn encode(id: MessageId, is_ack: bool, must_ack: bool, payload: &Vec<u8>) -> (r: Vec<u8>)
    ensures
        r@ == spec_encode(id, is_ack, must_ack, payload@),
{
    proof {
        assert((id & 0xff) < 256 && ((id >> 8) & 0xff) < 256 && ((id >> 16) & 0xff) < 256 && ((id
            >> 24) & 0xff) < 256 && ((id >> 32) & 0xff) < 256 && ((id >> 40) & 0xff) < 256 && ((id
            >> 48) & 0xff) < 256 && ((id >> 56) & 0xff) < 256) by (bit_vector);
    }
    let mut r: Vec<u8> = Vec::new();
    r.push((id & 0xff) as u8);
    r.push(((id >> 8) & 0xff) as u8);
    r.push(((id >> 16) & 0xff) as u8);
    r.push(((id >> 24) & 0xff) as u8);
    r.push(((id >> 32) & 0xff) as u8);
    r.push(((id >> 40) & 0xff) as u8);
    r.push(((id >> 48) & 0xff) as u8);
    r.push(((id >> 56) & 0xff) as u8);
    r.push(if is_ack { 1 } else { 0 });
    r.push(if must_ack { 1 } else { 0 });
    let ghost header = r@;
    proof {
        assert(header =~= spec_id_bytes(id) + seq![
            spec_flag_byte(is_ack),
            spec_flag_byte(must_ack),
        ]);
    }
    let mut i: usize = 0;
    while i < payload.len()
        invariant
            i <= payload.len(),
            r@ == header + payload@.subrange(0, i as int),
        decreases payload.len() - i,
    {
        r.push(payload[i]);
        proof {
            assert(payload@.subrange(0, i + 1) =~= payload@.subrange(0, i as int).push(
                payload@[i as int],
            ));
        }
        i += 1;
    }
    proof {
        assert(payload@.subrange(0, payload@.len() as int) =~= payload@);
        assert(r@ =~= spec_encode(id, is_ack, must_ack, payload@));
    }
    r
}

/// Decode a frame.  Returns exactly what [`spec_decode`] says: the envelope
/// the frame holds, or the error that makes it malformed.
pub fn decode(bytes: &Vec<u8>) -> (r: Result<Envelope, CodecError>)
    ensures
        match r {
            Ok(e) => spec_decode(bytes@) == Ok::<EnvelopeView, CodecError>(e@),
            Err(c) => spec_decode(bytes@) == Err::<EnvelopeView, CodecError>(c),
        },
{
    if bytes.len() < HEADER_LEN {
        return Err(CodecError::TooShort);
    }
    let f_ack = bytes[8];
    let f_must = bytes[9];
    if !(f_ack == 0 || f_ack == 1) || !(f_must == 0 || f_must == 1) {
        return Err(CodecError::BadFlagByte);
    }
    let id: u64 = (bytes[0] as u64) | ((bytes[1] as u64) << 8) | ((bytes[2] as u64) << 16) | ((
    bytes[3] as u64) << 24) | ((bytes[4] as u64) << 32) | ((bytes[5] as u64) << 40) | ((
    bytes[6] as u64) << 48) | ((bytes[7] as u64) << 56);
    let mut payload: Vec<u8> = Vec::new();
    let mut i: usize = HEADER_LEN;
    while i < bytes.len()
        invariant
            HEADER_LEN <= i <= bytes.len(),
            payload@ == bytes@.subrange(HEADER_LEN as int, i as int),
        decreases bytes.len() - i,
    {
        payload.push(bytes[i]);
        proof {
            assert(bytes@.subrange(HEADER_LEN as int, i + 1) =~= bytes@.subrange(
                HEADER_LEN as int,
                i as int,
            ).push(bytes@[i as int]));
        }
        i += 1;
    }
    let e = Envelope { id, is_ack: f_ack == 1, must_ack: f_must == 1, payload };
    proof {
        let b8 = bytes@.subrange(0, 8);
        assert(forall|k: int| 0 <= k < 8 ==> b8[k] == bytes@[k]);
        assert(e@.payload =~= bytes@.subrange(HEADER_LEN as int, bytes@.len() as int));
    }
    Ok(e)
}

/// Round trip: decoding an encoded envelope gives back exactly the id, the
/// two flags and the payload that were encoded, for every id, every flag
/// pair and every payload.
pub proof fn lemma_codec_round_trip(id: u64, is_ack: bool, must_ack: bool, payload: Seq<u8>)
    ensures
        spec_decode(spec_encode(id, is_ack, must_ack, payload)) == Ok::<
            EnvelopeView,
            CodecError,
        >(EnvelopeView { id, is_ack, must_ack, payload }),
{
    let enc = spec_encode(id, is_ack, must_ack, payload);
    assert(enc.len() == 10 + payload.len());
    assert(enc[8] == spec_flag_byte(is_ack));
    assert(enc[9] == spec_flag_byte(must_ack));
    let b8 = enc.subrange(0, 8);
    assert(b8 =~= spec_id_bytes(id));
    assert((((id & 0xff) as u8) as u64) | ((((id >> 8) & 0xff) as u8) as u64) << 8 | ((((id >> 16)
        & 0xff) as u8) as u64) << 16 | ((((id >> 24) & 0xff) as u8) as u64) << 24 | ((((id >> 32)
        & 0xff) as u8) as u64) << 32 | ((((id >> 40) & 0xff) as u8) as u64) << 40 | ((((id >> 48)
        & 0xff) as u8) as u64) << 48 | ((((id >> 56) & 0xff) as u8) as u64) << 56 == id)
        by (bit_vector);
    assert(spec_id_of_bytes(b8) == id);
    assert(enc.subrange(HEADER_LEN as int, enc.len() as int) =~= payload);
}

} // verus!

