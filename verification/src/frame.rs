//! Wire framing: a 4-byte big-endian header size, the JSON header, then the
//! custom data bytes.

use vstd::prelude::*;

verus! {

/// The number that a 4-byte big-endian header size field holds.
pub open spec fn header_size_value(b: Seq<u8>) -> nat
    recommends
        b.len() == 4,
{
    (b[0] as nat) * 0x1000000 + (b[1] as nat) * 0x10000 + (b[2] as nat) * 0x100 + (b[3] as nat)
}

/// Reads a 4-byte big-endian header size field.
pub fn decode_header_size(bytes: &[u8]) -> (size: u32)
    requires
        bytes@.len() == 4,
    ensures
        size == header_size_value(bytes@),
{
    let mut size: u32 = 0;
    let mut i: usize = 0;
    while i < 3
        invariant
            i <= 3,
            bytes@.len() == 4,
            i == 0 ==> size == 0,
            i == 1 ==> size == (bytes@[0] as nat) * 0x100,
            i == 2 ==> size == (bytes@[0] as nat) * 0x10000 + (bytes@[1] as nat) * 0x100,
            i == 3 ==> size == (bytes@[0] as nat) * 0x1000000 + (bytes@[1] as nat) * 0x10000
                + (bytes@[2] as nat) * 0x100,
        decreases 3 - i,
    {
        let b: u8 = bytes[i];
        let s: u32 = size + b as u32;
        assert(s < 0x1000000);
        assert(s << 8u32 == s * 256) by (bit_vector)
            requires
                s < 0x1000000,
        ;
        size = s << 8u32;
        i = i + 1;
    }
    size + bytes[3] as u32
}


/// The 4-byte big-endian field that carries a header of `n` bytes; only the
/// low 32 bits of `n` fit in it.
pub open spec fn header_size_bytes(n: int) -> Seq<u8> {
    seq![
        ((n / 0x1000000) % 0x100) as u8,
        ((n / 0x10000) % 0x100) as u8,
        ((n / 0x100) % 0x100) as u8,
        (n % 0x100) as u8,
    ]
}

/// A whole message on the wire: the header size field, the JSON header,
/// then the custom data.
pub open spec fn frame_bytes(header_json: Seq<u8>, custom_data: Seq<u8>) -> Seq<u8> {
    header_size_bytes(header_json.len() as int) + header_json + custom_data
}

proof fn lemma_byte_of_len(x: usize, i: usize)
    requires
        i < 4,
    ensures
        ((x >> ((3 - i) * 8) as usize) & 0xff) as u8 == header_size_bytes(x as int)[i as int],
{
    if i == 0 {
        assert((x >> 24usize) & 0xff == (x / 0x1000000) % 0x100) by (bit_vector);
    } else if i == 1 {
        assert((x >> 16usize) & 0xff == (x / 0x10000) % 0x100) by (bit_vector);
    } else if i == 2 {
        assert((x >> 8usize) & 0xff == (x / 0x100) % 0x100) by (bit_vector);
    } else {
        assert((x >> 0usize) & 0xff == x % 0x100) by (bit_vector);
    }
}

/// Writes the 4-byte big-endian header size field for a header of `len`
/// bytes (the bits of `len` above the low 32 are dropped).
pub fn encode_header_size(len: usize) -> (bytes: [u8; 4])
    ensures
        bytes@ == header_size_bytes(len as int),
{
    let mut bytes: [u8; 4] = [0u8; 4];
    let mut i: usize = 0;
    while i < 4
        invariant
            i <= 4,
            bytes@.len() == 4,
            forall|j: int| 0 <= j < i ==> bytes@[j] == header_size_bytes(len as int)[j],
        decreases 4 - i,
    {
        proof {
            lemma_byte_of_len(len, i);
        }
        bytes[i] = ((len >> ((3 - i) * 8)) & 0xFF) as u8;
        i = i + 1;
    }
    assert(bytes@ =~= header_size_bytes(len as int));
    bytes
}

pub(crate) fn append_bytes(out: &mut Vec<u8>, bytes: &[u8])
    requires
        old(out)@.len() + bytes@.len() <= usize::MAX,
    ensures
        final(out)@ == old(out)@ + bytes@,
{
    let ghost start = out@;
    let mut i: usize = 0;
    while i < bytes.len()
        invariant
            i <= bytes@.len(),
            out@ == start + bytes@.subrange(0, i as int),
        decreases bytes@.len() - i,
    {
        out.push(bytes[i]);
        i = i + 1;
        assert(out@ =~= start + bytes@.subrange(0, i as int));
    }
    assert(bytes@.subrange(0, i as int) =~= bytes@);
}

/// Lays out one message: the header size field, the JSON header and the
/// custom data, in this order.
pub fn frame_message(header_json: &[u8], custom_data: &[u8]) -> (frame: Vec<u8>)
    requires
        4 + header_json@.len() + custom_data@.len() <= usize::MAX,
    ensures
        frame@ == frame_bytes(header_json@, custom_data@),
{
    let size = encode_header_size(header_json.len());
    let mut frame: Vec<u8> = Vec::new();
    append_bytes(&mut frame, &size);
    append_bytes(&mut frame, header_json);
    append_bytes(&mut frame, custom_data);
    frame
}

/// Reading the size field back gives the size written, taken modulo 2^32.
pub proof fn lemma_header_size_roundtrip(n: u64)
    ensures
        header_size_value(header_size_bytes(n as int)) == n % 0x100000000,
{
    assert(((n / 0x1000000) % 0x100) * 0x1000000 + ((n / 0x10000) % 0x100) * 0x10000
        + ((n / 0x100) % 0x100) * 0x100 + n % 0x100 == n % 0x100000000) by (bit_vector);
}

/// Writing back the size that a 4-byte field holds gives the same 4 bytes.
pub proof fn lemma_header_size_bytes_roundtrip(b: Seq<u8>)
    requires
        b.len() == 4,
    ensures
        header_size_bytes(header_size_value(b) as int) == b,
{
    let (b0, b1, b2, b3) = (b[0], b[1], b[2], b[3]);
    let v: u64 = ((b0 as u64) * 0x1000000 + (b1 as u64) * 0x10000 + (b2 as u64) * 0x100 + (b3 as u64)) as u64;
    assert(((v / 0x1000000) % 0x100) as u8 == b0 && ((v / 0x10000) % 0x100) as u8 == b1
        && ((v / 0x100) % 0x100) as u8 == b2 && (v % 0x100) as u8 == b3) by (bit_vector)
        requires
            v == (b0 as u64) * 0x1000000 + (b1 as u64) * 0x10000 + (b2 as u64) * 0x100 + (b3 as u64),
    ;
    assert(header_size_bytes(header_size_value(b) as int) =~= b);
}

/// A framed message gives back, in order, the size of its header (when the
/// header is shorter than 2^32 bytes), the header and the custom data.
pub proof fn lemma_frame_roundtrip(header_json: Seq<u8>, custom_data: Seq<u8>)
    requires
        header_json.len() < 0x100000000,
    ensures
        ({
            let f = frame_bytes(header_json, custom_data);
            let n = header_json.len() as int;
            &&& f.len() == 4 + n + custom_data.len()
            &&& header_size_value(f.subrange(0, 4)) == header_json.len()
            &&& f.subrange(4, 4 + n) == header_json
            &&& f.subrange(4 + n, f.len() as int) == custom_data
        }),
{
    let f = frame_bytes(header_json, custom_data);
    let n = header_json.len() as int;
    lemma_header_size_roundtrip(header_json.len() as u64);
    assert(f.subrange(0, 4) =~= header_size_bytes(n));
    assert(f.subrange(4, 4 + n) =~= header_json);
    assert(f.subrange(4 + n, f.len() as int) =~= custom_data);
}

} // verus!
