//! The message header and the logic of the reads that fill a message: how
//! much to read next, when a read is complete, and which sizes are refused.

use crate::crypto::padding_size;
use vstd::prelude::*;

verus! {

/// A JSON value of `serde_json`, carried through unopened.
#[verifier::external_type_specification]
#[verifier::external_body]
pub struct ExValue(serde_json::Value);

/// The JSON header that precedes the custom data of a message.
pub struct DefaultHeader {
    /// The action that the message asks for (`resp` in replies).
    pub act: String,
    /// The number of custom data bytes that follow the header on the wire.
    pub custom_data_size: usize,
    /// The JSON payload.
    pub data: serde_json::Value,
}

/// The number of custom data bytes announced for `len` bytes of custom data:
/// none for none, otherwise `len` rounded up past the next multiple of 16,
/// which is the length of the encrypted data.
pub open spec fn wire_custom_data_size(len: nat) -> nat {
    if len > 0 {
        (len + (16 - len % 16)) as nat
    } else {
        0
    }
}

/// The size announced in a header for `len` bytes of custom data.
pub fn custom_data_size(len: usize) -> (size: usize)
    requires
        len + 16 <= usize::MAX,
    ensures
        size == wire_custom_data_size(len as nat),
{
    let mut size: usize = len;
    if size > 0 {
        size = size + (16 - size % 16);
    }
    size
}

/// For data that is not empty, the announced size is the length of the data
/// once padded for encryption.
pub proof fn lemma_announced_size_is_padded_len(len: nat)
    requires
        len > 0,
    ensures
        wire_custom_data_size(len) == len + padding_size(len),
{
}

/// Whether a header of `header_size` bytes may be read under the limit
/// `max_size`.
pub fn header_size_allowed(header_size: u32, max_size: u64) -> (b: bool)
    ensures
        b == (header_size <= max_size),
{
    !(header_size as u64 > max_size)
}

impl DefaultHeader {
    /// A header for the action `act`, the JSON payload `data` and `len` bytes
    /// of custom data.
    pub fn new(act: String, len: usize, data: serde_json::Value) -> (header: DefaultHeader)
        requires
            len + 16 <= usize::MAX,
        ensures
            header.act@ == act@,
            header.custom_data_size == wire_custom_data_size(len as nat),
            header.data == data,
    {
        DefaultHeader { act, custom_data_size: custom_data_size(len), data }
    }
}

/// Whether a header announces no more custom data than `max_size` bytes.
pub open spec fn custom_data_fits(header: DefaultHeader, max_size: u64) -> bool {
    header.custom_data_size as u64 <= max_size
}

/// Custom data fits exactly when its announced size is at most the limit;
/// in particular no custom data at all always fits.
pub proof fn lemma_custom_data_fits_is_limit(header: DefaultHeader, max_size: u64)
    ensures
        custom_data_fits(header, max_size) <==> header.custom_data_size <= max_size,
        header.custom_data_size == 0 ==> custom_data_fits(header, max_size),
{
}

/// What one read brought to an `ExactReader`.
#[derive(Debug, Clone, Copy, PartialEq, Eq, Structural)]
pub enum ReadProgress {
    /// Bytes came and more are wanted.
    Progress,
    /// All the wanted bytes are there.
    Complete,
    /// No byte came while more are wanted.
    Stalled,
}

/// Gathers exactly a wanted number of bytes from reads of at most
/// `max_chunk` bytes each.
pub struct ExactReader {
    want: usize,
    max_chunk: usize,
    data: Vec<u8>,
}

/// The smaller of two numbers.
pub open spec fn min_nat(a: nat, b: nat) -> nat {
    if a <= b {
        a
    } else {
        b
    }
}

impl ExactReader {
    #[verifier::type_invariant]
    spec fn inv(self) -> bool {
        &&& self.data@.len() <= self.want
        &&& self.max_chunk > 0
    }

    /// The number of bytes wanted in all.
    pub closed spec fn wanted(&self) -> nat {
        self.want as nat
    }

    /// The most bytes asked of one read.
    pub closed spec fn chunk_limit(&self) -> nat {
        self.max_chunk as nat
    }

    /// The bytes gathered so far, in the order they came.
    pub closed spec fn received(&self) -> Seq<u8> {
        self.data@
    }

    /// The number of bytes that the next read may bring.
    pub open spec fn next_len(&self) -> nat {
        min_nat((self.wanted() - self.received().len()) as nat, self.chunk_limit())
    }

    /// A reader that wants `want` bytes, asking at most `max_chunk` of each read.
    pub fn new(want: usize, max_chunk: usize) -> (r: ExactReader)
        requires
            max_chunk > 0,
        ensures
            r.wanted() == want,
            r.chunk_limit() == max_chunk,
            r.received() == Seq::<u8>::empty(),
    {
        ExactReader { want, max_chunk, data: Vec::new() }
    }

    /// The number of bytes to ask of the next read: what is still wanted,
    /// but no more than the chunk limit.
    pub fn next_read_len(&self) -> (n: usize)
        ensures
            n == self.next_len(),
            self.received().len() <= self.wanted(),
    {
        proof {
            use_type_invariant(self);
        }
        let rest: usize = self.want - self.data.len();
        if rest > self.max_chunk {
            self.max_chunk
        } else {
            rest
        }
    }

    /// Whether all the wanted bytes are there.
    pub fn is_complete(&self) -> (b: bool)
        ensures
            b == (self.received().len() == self.wanted()),
            self.received().len() <= self.wanted(),
    {
        proof {
            use_type_invariant(self);
        }
        self.data.len() == self.want
    }

    /// Takes the bytes that one read brought.
    pub fn accept(&mut self, chunk: &[u8]) -> (p: ReadProgress)
        requires
            chunk@.len() <= old(self).next_len(),
        ensures
            final(self).wanted() == old(self).wanted(),
            final(self).chunk_limit() == old(self).chunk_limit(),
            final(self).received() == old(self).received() + chunk@,
            final(self).received() == received_after(old(self).received(), seq![chunk@]),
            final(self).received().len() <= final(self).wanted(),
            p == (if final(self).received().len() == final(self).wanted() {
                ReadProgress::Complete
            } else if chunk@.len() == 0 {
                ReadProgress::Stalled
            } else {
                ReadProgress::Progress
            }),
    {
        proof {
            use_type_invariant(&*self);
        }
        let mut data: Vec<u8> = Vec::new();
        std::mem::swap(&mut data, &mut self.data);
        crate::frame::append_bytes(&mut data, chunk);
        self.data = data;
        proof {
            let one = seq![chunk@];
            assert(one.drop_first() =~= Seq::<Seq<u8>>::empty());
            assert(received_after(old(self).received(), one) == received_after(
                old(self).received() + chunk@,
                one.drop_first(),
            ));
        }
        if self.data.len() == self.want {
            ReadProgress::Complete
        } else if chunk.len() == 0 {
            ReadProgress::Stalled
        } else {
            ReadProgress::Progress
        }
    }

    /// The bytes gathered.
    pub fn into_bytes(self) -> (bytes: Vec<u8>)
        ensures
            bytes@ == self.received(),
    {
        self.data
    }
}

/// The bytes that a reader holds after taking `chunks`, one `accept` each
/// in order, when it held `start` before.
pub open spec fn received_after(start: Seq<u8>, chunks: Seq<Seq<u8>>) -> Seq<u8>
    decreases chunks.len(),
{
    if chunks.len() == 0 {
        start
    } else {
        received_after(start + chunks[0], chunks.drop_first())
    }
}

/// What a reader gathers is what came, whatever the sizes of the reads:
/// taking `chunks` adds their concatenation to what was held.
pub proof fn lemma_received_after(start: Seq<u8>, chunks: Seq<Seq<u8>>)
    ensures
        received_after(start, chunks) == start + chunks.flatten(),
    decreases chunks.len(),
{
    if chunks.len() > 0 {
        lemma_received_after(start + chunks[0], chunks.drop_first());
        assert(start + chunks[0] + chunks.drop_first().flatten() =~= start + chunks.flatten());
    }
}

/// Two ways of cutting the same bytes into reads leave a reader with the
/// same bytes.
pub proof fn lemma_chunking_irrelevant(start: Seq<u8>, c1: Seq<Seq<u8>>, c2: Seq<Seq<u8>>)
    requires
        c1.flatten() == c2.flatten(),
    ensures
        received_after(start, c1) == received_after(start, c2),
{
    lemma_received_after(start, c1);
    lemma_received_after(start, c2);
}

/// The reader for the 4-byte header size field.
pub fn header_size_reader() -> (r: ExactReader)
    ensures
        r.wanted() == 4,
        r.chunk_limit() == usize::MAX,
        r.received() == Seq::<u8>::empty(),
{
    ExactReader::new(4, usize::MAX)
}

/// The reader for a JSON header of `header_size` bytes.
pub fn header_reader(header_size: u32) -> (r: ExactReader)
    ensures
        r.wanted() == header_size,
        r.chunk_limit() == usize::MAX,
        r.received() == Seq::<u8>::empty(),
{
    ExactReader::new(header_size as usize, usize::MAX)
}

/// The size of the buffer through which custom data is read.
pub const CUSTOM_DATA_CHUNK: usize = 4096;

/// The reader for the custom data that `header` announces, in chunks of at
/// most 4096 bytes; `None` when it announces more than `max_size` bytes.
pub fn custom_data_reader(header: &DefaultHeader, max_size: u64) -> (r: Option<ExactReader>)
    ensures
        r is None <==> !custom_data_fits(*header, max_size),
        r is None <==> header.custom_data_size > max_size,
        r matches Some(reader) ==> {
            &&& reader.wanted() == header.custom_data_size
            &&& reader.chunk_limit() == CUSTOM_DATA_CHUNK
            &&& reader.received() == Seq::<u8>::empty()
        },
{
    let size = header.custom_data_size;
    if size as u64 > max_size {
        return None;
    }
    Some(ExactReader::new(size, CUSTOM_DATA_CHUNK))
}

} // verus!
