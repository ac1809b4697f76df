//! Compressing bytes, and cutting what a compressor writes into chunks.
use vstd::prelude::*;
use vstd::seq_lib::lemma_flatten_concat;
use vstd::slice::slice_subrange;
use zstd::stream::raw::{CParameter, Encoder};
use zstd::stream::zio::Writer;

use crate::text::push_bytes;

verus! {

#[verifier::external_type_specification]
#[verifier::external_body]
pub struct ExIoError(std::io::Error);

#[verifier::external_type_specification]
#[verifier::external_body]
#[verifier::reject_recursive_types(W)]
#[verifier::reject_recursive_types(D)]
pub struct ExWriter<W, D>(zstd::stream::zio::Writer<W, D>);

#[verifier::external_type_specification]
#[verifier::external_body]
pub struct ExEncoder<'a>(zstd::stream::raw::Encoder<'a>);

/// The compression formats.
#[derive(Debug, Clone, Copy, PartialEq, Eq, Structural)]
pub enum CompressionType {
    Zstd,
}

/// A compressed stream, and how much went in and came out.
#[derive(Debug)]
pub struct CompressedBytes {
    pub bytes: Vec<u8>,
    pub input_bytes: usize,
    pub compressed_bytes: usize,
}

/// How much went into a compressed stream and came out of it.
#[derive(Debug)]
pub struct CompressedStreamStats {
    pub input_bytes: usize,
    pub compressed_bytes: usize,
}

/// The frame that `zstd::bulk::compress` writes for the given data and level.
pub uninterp spec fn zstd_frame(data: Seq<u8>, level: i32) -> Seq<u8>;

/// The data that `zstd::bulk::decompress`, with room for it, gives back for a frame.
pub uninterp spec fn zstd_content(frame: Seq<u8>) -> Seq<u8>;

/// `zstd::bulk::compress`: where it succeeds, the frame for the data and the level, from which
/// decompression gives the data back. When it fails is not said: it needs memory for its context
/// and its buffer.
#[verifier::external_body]
fn zstd_compress(data: &[u8], level: i32) -> (r: Result<Vec<u8>, std::io::Error>)
    ensures
        r matches Ok(frame) ==> frame@ == zstd_frame(data@, level) && zstd_content(frame@)
            == data@,
{
    zstd::bulk::compress(data, level)
}

/// Compresses the bytes. Whether this succeeds is up to the compressor.
pub fn compress_bytes(compression_type: CompressionType, level: i32, bytes: &[u8]) -> (r: Result<
    Vec<u8>,
    std::io::Error,
>)
    ensures
        r matches Ok(frame) ==> frame@ == zstd_frame(bytes@, level) && zstd_content(frame@)
            == bytes@,
{
    match compression_type {
        CompressionType::Zstd => zstd_compress(bytes, level),
    }
}

// ---------------------------------------------------------------------------
// Chunks
// ---------------------------------------------------------------------------

/// The size of the chunks that a compressed stream is handed on in.
pub const STREAM_CHUNK_SIZE: usize = 1048576;

/// The whole chunks at the front of `s`.
pub open spec fn whole_chunks(s: Seq<u8>, size: nat) -> Seq<Seq<u8>>
    decreases s.len(),
{
    if size == 0 || s.len() < size {
        Seq::empty()
    } else {
        seq![s.take(size as int)] + whole_chunks(s.skip(size as int), size)
    }
}

/// What stands behind the whole chunks at the front of `s`.
pub open spec fn chunk_rest(s: Seq<u8>, size: nat) -> Seq<u8>
    decreases s.len(),
{
    if size == 0 || s.len() < size {
        s
    } else {
        chunk_rest(s.skip(size as int), size)
    }
}

/// Nothing is lost or reordered by cutting bytes into chunks, each chunk is whole, and what is
/// left is no chunk.
pub proof fn law_chunks_keep_bytes(s: Seq<u8>, size: nat)
    requires
        size > 0,
    ensures
        whole_chunks(s, size).flatten() + chunk_rest(s, size) == s,
        forall|i: int|
            0 <= i < whole_chunks(s, size).len() ==> (#[trigger] whole_chunks(s, size)[i]).len()
                == size,
        chunk_rest(s, size).len() < size,
    decreases s.len(),
{
    let chunks = whole_chunks(s, size);
    if s.len() < size {
        assert(chunks.flatten() =~= Seq::empty());
    } else {
        let rest = s.skip(size as int);
        law_chunks_keep_bytes(rest, size);
        assert(chunks.first() == s.take(size as int));
        assert(chunks.drop_first() =~= whole_chunks(rest, size));
        assert(chunks.flatten() =~= s.take(size as int) + whole_chunks(rest, size).flatten());
        assert forall|i: int| 0 <= i < chunks.len() implies (#[trigger] chunks[i]).len()
            == size by {
            if i > 0 {
                assert(chunks[i] == whole_chunks(rest, size)[i - 1]);
            }
        }
        assert(chunks.flatten() + chunk_rest(s, size) =~= s.take(size as int) + rest);
        assert(s.take(size as int) + rest =~= s);
    }
}

/// What is done with a buffer of chunks while a stream goes on.
pub enum ChunkStep {
    Extend(Seq<u8>),
    Drain,
}

/// A buffer of chunks while a stream goes on: the bytes that it took in, the chunks that it handed
/// on, the bytes that wait and the count of those handed on.
pub struct StreamModel {
    pub taken: Seq<u8>,
    pub chunks: Seq<Seq<u8>>,
    pub pending: Seq<u8>,
    pub sent: nat,
}

/// A new buffer after the given steps.
pub open spec fn stream_after(steps: Seq<ChunkStep>, size: nat) -> StreamModel
    decreases steps.len(),
{
    if steps.len() == 0 {
        StreamModel {
            taken: Seq::empty(),
            chunks: Seq::empty(),
            pending: Seq::empty(),
            sent: 0,
        }
    } else {
        let before = stream_after(steps.drop_last(), size);
        match steps.last() {
            ChunkStep::Extend(bytes) => StreamModel {
                taken: before.taken + bytes,
                pending: before.pending + bytes,
                ..before
            },
            ChunkStep::Drain => {
                let rest = chunk_rest(before.pending, size);
                StreamModel {
                    chunks: before.chunks + whole_chunks(before.pending, size),
                    pending: rest,
                    sent: (before.sent + before.pending.len() - rest.len()) as nat,
                    ..before
                }
            },
        }
    }
}

/// A buffer after its last chunk, which holds all that waits.
pub open spec fn stream_ended(stream: StreamModel) -> StreamModel {
    StreamModel {
        chunks: if stream.pending.len() > 0 {
            stream.chunks.push(stream.pending)
        } else {
            stream.chunks
        },
        pending: Seq::empty(),
        sent: stream.sent + stream.pending.len(),
        ..stream
    }
}

/// At every moment the chunks that were handed on are whole and make up, with the bytes that wait,
/// what was taken in, and the count is that of the bytes in the chunks.
pub proof fn law_stream_keeps_bytes(steps: Seq<ChunkStep>, size: nat)
    requires
        size > 0,
    ensures
        ({
            let stream = stream_after(steps, size);
            &&& stream.chunks.flatten() + stream.pending == stream.taken
            &&& stream.sent == stream.chunks.flatten().len()
            &&& forall|i: int|
                0 <= i < stream.chunks.len() ==> (#[trigger] stream.chunks[i]).len() == size
        }),
    decreases steps.len(),
{
    let stream = stream_after(steps, size);
    if steps.len() == 0 {
        assert(stream.chunks.flatten() =~= Seq::empty());
    } else {
        law_stream_keeps_bytes(steps.drop_last(), size);
        let before = stream_after(steps.drop_last(), size);
        match steps.last() {
            ChunkStep::Extend(bytes) => {
                assert(before.chunks.flatten() + (before.pending + bytes) =~= (
                before.chunks.flatten() + before.pending) + bytes);
            },
            ChunkStep::Drain => {
                let cut = whole_chunks(before.pending, size);
                law_chunks_keep_bytes(before.pending, size);
                lemma_flatten_concat(before.chunks, cut);
                assert(before.chunks.flatten() + cut.flatten() + stream.pending
                    =~= before.chunks.flatten() + (cut.flatten() + stream.pending));
                assert(before.pending.len() == cut.flatten().len() + stream.pending.len());
                assert forall|i: int| 0 <= i < stream.chunks.len() implies (
                #[trigger] stream.chunks[i]).len() == size by {
                    if i >= before.chunks.len() {
                        assert(stream.chunks[i] == cut[i - before.chunks.len()]);
                    } else {
                        assert(stream.chunks[i] == before.chunks[i]);
                    }
                }
            },
        }
    }
}

/// The chunks of a whole stream together are the bytes that were taken in. None is empty, and all
/// but the last, which may be larger where nothing was drained before the end, are of the one size.
/// The count is that of the bytes taken in.
pub proof fn law_ended_stream_is_whole(steps: Seq<ChunkStep>, size: nat)
    requires
        size > 0,
    ensures
        ({
            let stream = stream_ended(stream_after(steps, size));
            &&& stream.chunks.flatten() == stream.taken
            &&& stream.sent == stream.taken.len()
            &&& forall|i: int|
                0 <= i < stream.chunks.len() ==> (#[trigger] stream.chunks[i]).len() > 0
            &&& forall|i: int|
                0 <= i < stream.chunks.len() - 1 ==> (#[trigger] stream.chunks[i]).len() == size
            &&& (steps.len() > 0 && steps.last() is Drain) ==> forall|i: int|
                0 <= i < stream.chunks.len() ==> (#[trigger] stream.chunks[i]).len() <= size
        }),
{
    let before = stream_after(steps, size);
    let stream = stream_ended(before);
    law_stream_keeps_bytes(steps, size);
    if before.pending.len() > 0 {
        before.chunks.lemma_flatten_push(before.pending);
        assert forall|i: int| 0 <= i < stream.chunks.len() - 1 implies (
        #[trigger] stream.chunks[i]).len() == size by {
            assert(stream.chunks[i] == before.chunks[i]);
        }
    } else {
        assert(before.chunks.flatten() + before.pending =~= before.chunks.flatten());
    }
    if steps.len() > 0 && steps.last() is Drain {
        law_chunks_keep_bytes(stream_after(steps.drop_last(), size).pending, size);
    }
}

/// Collects what a compressor writes and hands it on in chunks of one size.
pub struct ChunkBuffer {
    buffer: Vec<u8>,
    chunk_size: usize,
    handed_on: usize,
}

impl ChunkBuffer {
    /// The bytes that wait to be handed on.
    pub closed spec fn pending(self) -> Seq<u8> {
        self.buffer@
    }

    pub closed spec fn size(self) -> nat {
        self.chunk_size as nat
    }

    /// How many bytes were handed on.
    pub closed spec fn sent(self) -> nat {
        self.handed_on as nat
    }

    pub fn new(chunk_size: usize) -> (chunks: Self)
        ensures
            chunks.pending() == Seq::<u8>::empty(),
            chunks.size() == chunk_size,
            chunks.sent() == 0,
    {
        ChunkBuffer { buffer: Vec::new(), chunk_size, handed_on: 0 }
    }

    /// Takes in the bytes behind those that wait.
    pub fn extend(&mut self, bytes: &[u8])
        ensures
            final(self).pending() == old(self).pending() + bytes@,
            final(self).size() == old(self).size(),
            final(self).sent() == old(self).sent(),
    {
        push_bytes(&mut self.buffer, bytes);
    }

    /// How many bytes were handed on.
    pub fn compressed_bytes(&self) -> (n: usize)
        ensures
            n == self.sent(),
    {
        self.handed_on
    }

    /// Whether counting all that waits stays within the counter.
    pub fn fits_counter(&self) -> (r: bool)
        ensures
            r == (self.sent() + self.pending().len() <= usize::MAX),
    {
        self.buffer.len() <= usize::MAX - self.handed_on
    }

    /// The next whole chunk, if there is one.
    pub fn next_chunk(&mut self) -> (chunk: Option<Vec<u8>>)
        requires
            old(self).size() > 0,
            old(self).sent() + old(self).pending().len() <= usize::MAX,
        ensures
            final(self).size() == old(self).size(),
            match chunk {
                Some(c) => {
                    &&& old(self).pending().len() >= old(self).size()
                    &&& c@ == old(self).pending().take(old(self).size() as int)
                    &&& final(self).pending() == old(self).pending().skip(old(self).size() as int)
                    &&& final(self).sent() == old(self).sent() + old(self).size()
                },
                None => {
                    &&& old(self).pending().len() < old(self).size()
                    &&& final(self).pending() == old(self).pending()
                    &&& final(self).sent() == old(self).sent()
                },
            },
    {
        if self.buffer.len() < self.chunk_size {
            return None;
        }
        let mut chunk: Vec<u8> = Vec::new();
        push_bytes(&mut chunk, slice_subrange(&self.buffer, 0, self.chunk_size));
        let mut rest: Vec<u8> = Vec::new();
        push_bytes(&mut rest, slice_subrange(&self.buffer, self.chunk_size, self.buffer.len()));
        self.buffer = rest;
        self.handed_on = self.handed_on + self.chunk_size;
        assert(chunk@ =~= old(self).pending().take(old(self).size() as int));
        assert(self.buffer@ =~= old(self).pending().skip(old(self).size() as int));
        Some(chunk)
    }

    /// Everything that waits, as the last chunk, if anything does.
    pub fn last_chunk(&mut self) -> (chunk: Option<Vec<u8>>)
        requires
            old(self).sent() + old(self).pending().len() <= usize::MAX,
        ensures
            final(self).size() == old(self).size(),
            final(self).pending() == Seq::<u8>::empty(),
            final(self).sent() == old(self).sent() + old(self).pending().len(),
            match chunk {
                Some(c) => c@ == old(self).pending() && c@.len() > 0,
                None => old(self).pending().len() == 0,
            },
    {
        if self.buffer.len() == 0 {
            return None;
        }
        let mut chunk: Vec<u8> = Vec::new();
        push_bytes(&mut chunk, &self.buffer);
        self.buffer = Vec::new();
        self.handed_on = self.handed_on + chunk.len();
        assert(chunk@ =~= old(self).pending());
        Some(chunk)
    }

    /// All whole chunks that are there.
    pub fn drain(&mut self) -> (chunks: Vec<Vec<u8>>)
        requires
            old(self).size() > 0,
            old(self).sent() + old(self).pending().len() <= usize::MAX,
        ensures
            final(self).size() == old(self).size(),
            final(self).sent() + final(self).pending().len() == old(self).sent()
                + old(self).pending().len(),
            chunks@.map_values(|c: Vec<u8>| c@) == whole_chunks(
                old(self).pending(),
                old(self).size(),
            ),
            final(self).pending() == chunk_rest(old(self).pending(), old(self).size()),
    {
        let mut chunks: Vec<Vec<u8>> = Vec::new();
        let ghost all = whole_chunks(self.pending(), self.size());
        assert(chunks@.map_values(|c: Vec<u8>| c@) + all =~= all);
        loop
            invariant
                self.size() == old(self).size() > 0,
                self.sent() + self.pending().len() == old(self).sent() + old(self).pending().len(),
                old(self).sent() + old(self).pending().len() <= usize::MAX,
                chunks@.map_values(|c: Vec<u8>| c@) + whole_chunks(self.pending(), self.size())
                    == whole_chunks(old(self).pending(), old(self).size()),
                chunk_rest(self.pending(), self.size()) == chunk_rest(
                    old(self).pending(),
                    old(self).size(),
                ),
            decreases self.pending().len(),
        {
            let ghost before = chunks@;
            match self.next_chunk() {
                Some(chunk) => {
                    chunks.push(chunk);
                    assert(chunks@.map_values(|c: Vec<u8>| c@) =~= before.map_values(
                        |c: Vec<u8>| c@,
                    ).push(chunk@));
                    assert(chunks@.map_values(|c: Vec<u8>| c@) + whole_chunks(
                        self.pending(),
                        self.size(),
                    ) =~= before.map_values(|c: Vec<u8>| c@) + (seq![chunk@] + whole_chunks(
                        self.pending(),
                        self.size(),
                    )));
                },
                None => {
                    assert(before.map_values(|c: Vec<u8>| c@) + Seq::<Seq<u8>>::empty()
                        =~= before.map_values(|c: Vec<u8>| c@));
                    return chunks;
                },
            }
        }
    }
}

// ---------------------------------------------------------------------------
// Streams
// ---------------------------------------------------------------------------

/// The compression level that a stream was made for.
pub uninterp spec fn stream_level(writer: Writer<Vec<u8>, Encoder<'static>>) -> i32;

/// The number of workers that a stream was told to compress with; none unless it was told.
pub uninterp spec fn stream_workers(writer: Writer<Vec<u8>, Encoder<'static>>) -> u32;

/// The data that was written into a stream so far.
pub uninterp spec fn stream_data(writer: Writer<Vec<u8>, Encoder<'static>>) -> Seq<u8>;

/// The bytes that were taken away from a stream so far.
pub uninterp spec fn stream_taken(writer: Writer<Vec<u8>, Encoder<'static>>) -> Seq<u8>;

/// The bytes that have come out of a stream and were not taken away yet.
pub uninterp spec fn stream_output(writer: Writer<Vec<u8>, Encoder<'static>>) -> Seq<u8>;

/// `zstd::stream::raw::Encoder::new` and `zstd::stream::zio::Writer::new`, of which
/// `zstd::stream::write::Encoder::new` is made: where they succeed, a stream for the given level,
/// without workers, into which nothing was written and out of which nothing has come. When they
/// fail is not said: the context needs memory.
#[verifier::external_body]
fn new_stream(level: i32) -> (r: Result<Writer<Vec<u8>, Encoder<'static>>, std::io::Error>)
    ensures
        r matches Ok(writer) ==> {
            &&& stream_level(writer) == level
            &&& stream_workers(writer) == 0
            &&& stream_data(writer) == Seq::<u8>::empty()
            &&& stream_taken(writer) == Seq::<u8>::empty()
            &&& stream_output(writer) == Seq::<u8>::empty()
        },
{
    Ok(Writer::new(Vec::new(), Encoder::new(level)?))
}

/// `zstd::stream::raw::Encoder::set_parameter` with the number of workers: where it succeeds, the
/// stream is told that number, and all else stays. When it fails is not said: it depends on how the
/// compressor was built.
#[verifier::external_body]
fn set_workers(writer: &mut Writer<Vec<u8>, Encoder<'static>>, n: u32) -> (r: Result<
    (),
    std::io::Error,
>)
    ensures
        r is Ok ==> stream_workers(*final(writer)) == n,
        stream_level(*final(writer)) == stream_level(*old(writer)),
        stream_data(*final(writer)) == stream_data(*old(writer)),
        stream_taken(*final(writer)) == stream_taken(*old(writer)),
        stream_output(*final(writer)) == stream_output(*old(writer)),
{
    writer.operation_mut().set_parameter(CParameter::NbWorkers(n))
}

/// `write_all` of `zstd::stream::zio::Writer`: where it succeeds, the data goes on with the given
/// input. What comes out stands behind what has come out, whether it succeeds or not. When it fails
/// is not said: the compressor needs memory.
#[verifier::external_body]
fn write_stream(writer: &mut Writer<Vec<u8>, Encoder<'static>>, input: &[u8]) -> (r: Result<
    (),
    std::io::Error,
>)
    ensures
        r is Ok ==> stream_data(*final(writer)) == stream_data(*old(writer)) + input@,
        stream_output(*old(writer)).is_prefix_of(stream_output(*final(writer))),
        stream_taken(*final(writer)) == stream_taken(*old(writer)),
        stream_level(*final(writer)) == stream_level(*old(writer)),
        stream_workers(*final(writer)) == stream_workers(*old(writer)),
{
    std::io::Write::write_all(writer, input)
}

/// `zstd::stream::zio::Writer::writer_mut`: the bytes that have come out and were not taken away
/// yet. They are then taken away.
#[verifier::external_body]
fn take_output(writer: &mut Writer<Vec<u8>, Encoder<'static>>) -> (out: Vec<u8>)
    ensures
        out@ == stream_output(*old(writer)),
        stream_output(*final(writer)) == Seq::<u8>::empty(),
        stream_taken(*final(writer)) == stream_taken(*old(writer)) + out@,
        stream_data(*final(writer)) == stream_data(*old(writer)),
        stream_level(*final(writer)) == stream_level(*old(writer)),
        stream_workers(*final(writer)) == stream_workers(*old(writer)),
{
    std::mem::take(writer.writer_mut())
}

/// `zstd::stream::zio::Writer::finish`: where it succeeds, the bytes that were not taken away yet,
/// to the end of the frame. Behind those that were taken away they make a frame of the data. When
/// it fails is not said: the compressor needs memory.
#[verifier::external_body]
fn finish_stream(writer: Writer<Vec<u8>, Encoder<'static>>) -> (r: Result<
    Vec<u8>,
    std::io::Error,
>)
    ensures
        r matches Ok(rest) ==> zstd_content(stream_taken(writer) + rest@) == stream_data(writer)
            && stream_output(writer).is_prefix_of(rest@),
{
    let mut writer = writer;
    writer.finish()?;
    Ok(writer.into_inner().0)
}

/// Whether the chunks are of one size, but for the last where it ends the stream: it may be
/// shorter, though not empty.
pub open spec fn is_cut(chunks: Seq<Seq<u8>>, size: nat, ended: bool) -> bool {
    &&& forall|i: int| 0 <= i < chunks.len() ==> 0 < (#[trigger] chunks[i]).len() <= size
    &&& forall|i: int|
        0 <= i < chunks.len() - 1 || (0 <= i < chunks.len() && !ended) ==> (
        #[trigger] chunks[i]).len() == size
}

/// A stream that is compressed piece by piece and handed on in chunks.
pub struct StreamCompressor {
    writer: Writer<Vec<u8>, Encoder<'static>>,
    chunks: ChunkBuffer,
    input_bytes: usize,
    input: Ghost<Seq<u8>>,
    handed: Ghost<Seq<Seq<u8>>>,
}

impl StreamCompressor {
    /// The data that was written.
    pub closed spec fn input(self) -> Seq<u8> {
        self.input@
    }

    /// The chunks that were handed on.
    pub closed spec fn handed(self) -> Seq<Seq<u8>> {
        self.handed@
    }

    /// The compressed bytes that wait to be handed on.
    pub closed spec fn pending(self) -> Seq<u8> {
        self.chunks.pending()
    }

    pub closed spec fn size(self) -> nat {
        self.chunks.size()
    }

    /// The compression level that was asked for.
    pub closed spec fn level(self) -> i32 {
        stream_level(self.writer)
    }

    /// The number of workers that was asked for.
    pub closed spec fn workers(self) -> u32 {
        stream_workers(self.writer)
    }

    /// The bytes that the compressor has given out and that do not wait to be handed on yet.
    pub closed spec fn held_back(self) -> Seq<u8> {
        stream_output(self.writer)
    }

    pub closed spec fn wf(self) -> bool {
        &&& self.size() > 0
        &&& self.input_bytes == self.input().len()
        &&& self.chunks.sent() == self.handed().flatten().len()
        &&& is_cut(self.handed(), self.size(), false)
        &&& stream_taken(self.writer) == self.handed().flatten() + self.pending()
    }

    /// Whether the compressor took in all that was written, so that what came out so far, with what
    /// comes out at the end, is a frame of it.
    pub closed spec fn is_sound(self) -> bool {
        stream_data(self.writer) == self.input()
    }

    /// A stream into which nothing was written. Whether there can be one is up to the compressor.
    pub fn new(
        compression_type: CompressionType,
        level: i32,
        threads: Option<u32>,
        chunk_size: usize,
    ) -> (r: Result<Self, std::io::Error>)
        requires
            chunk_size > 0,
        ensures
            r matches Ok(stream) ==> {
                &&& stream.wf()
                &&& stream.is_sound()
                &&& stream.input() == Seq::<u8>::empty()
                &&& stream.handed() == Seq::<Seq<u8>>::empty()
                &&& stream.pending() == Seq::<u8>::empty()
                &&& stream.held_back() == Seq::<u8>::empty()
                &&& stream.size() == chunk_size
                &&& stream.level() == level
                &&& stream.workers() == (match threads {
                    Some(n) => n,
                    None => 0,
                })
            },
    {
        let mut writer = match compression_type {
            CompressionType::Zstd => match new_stream(level) {
                Ok(writer) => writer,
                Err(e) => {
                    return Err(e);
                },
            },
        };
        if let Some(n) = threads {
            match set_workers(&mut writer, n) {
                Ok(()) => {},
                Err(e) => {
                    return Err(e);
                },
            }
        }
        let stream = StreamCompressor {
            writer,
            chunks: ChunkBuffer::new(chunk_size),
            input_bytes: 0,
            input: Ghost(Seq::empty()),
            handed: Ghost(Seq::empty()),
        };
        assert(stream.handed().flatten() =~= Seq::<u8>::empty());
        assert(stream.handed().flatten() + stream.pending() =~= Seq::<u8>::empty());
        Ok(stream)
    }

    /// Whether counting that many bytes more stays within the counter.
    pub fn takes(&self, n: usize) -> (r: bool)
        requires
            self.wf(),
        ensures
            r == (self.input().len() + n <= usize::MAX),
    {
        n <= usize::MAX - self.input_bytes
    }

    /// Compresses the bytes behind those that were written. Whether this succeeds is up to the
    /// compressor; what has come out waits to be handed on in any case.
    pub fn write(&mut self, bytes: &[u8]) -> (r: Result<(), std::io::Error>)
        requires
            old(self).wf(),
            old(self).input().len() + bytes@.len() <= usize::MAX,
        ensures
            final(self).wf(),
            final(self).size() == old(self).size(),
            final(self).handed() == old(self).handed(),
            final(self).input() == (if r is Ok {
                old(self).input() + bytes@
            } else {
                old(self).input()
            }),
            final(self).level() == old(self).level(),
            final(self).workers() == old(self).workers(),
            (old(self).pending() + old(self).held_back()).is_prefix_of(final(self).pending()),
            final(self).held_back() == Seq::<u8>::empty(),
            r is Ok && old(self).is_sound() ==> final(self).is_sound(),
    {
        let ghost sent = self.handed().flatten() + self.pending();
        let ghost data = self.input();
        let r = write_stream(&mut self.writer, bytes);
        let out = take_output(&mut self.writer);
        self.chunks.extend(&out);
        assert(self.handed().flatten() + self.pending() =~= sent + out@);
        match r {
            Ok(()) => {
                self.input_bytes = self.input_bytes + bytes.len();
                self.input = Ghost(data + bytes@);
                Ok(())
            },
            Err(e) => Err(e),
        }
    }

    /// Whether counting all that waits stays within the counter.
    pub fn fits_counter(&self) -> (r: bool)
        requires
            self.wf(),
        ensures
            r == (self.handed().flatten().len() + self.pending().len() <= usize::MAX),
    {
        self.chunks.fits_counter()
    }

    /// The next whole chunk, if there is one.
    pub fn next_chunk(&mut self) -> (chunk: Option<Vec<u8>>)
        requires
            old(self).wf(),
            old(self).handed().flatten().len() + old(self).pending().len() <= usize::MAX,
        ensures
            final(self).wf(),
            final(self).size() == old(self).size(),
            final(self).input() == old(self).input(),
            final(self).level() == old(self).level(),
            final(self).workers() == old(self).workers(),
            final(self).held_back() == old(self).held_back(),
            old(self).is_sound() ==> final(self).is_sound(),
            match chunk {
                Some(c) => {
                    &&& c@.len() == old(self).size()
                    &&& c@ + final(self).pending() == old(self).pending()
                    &&& final(self).handed() == old(self).handed().push(c@)
                },
                None => {
                    &&& old(self).pending().len() < old(self).size()
                    &&& final(self).pending() == old(self).pending()
                    &&& final(self).handed() == old(self).handed()
                },
            },
    {
        let chunk = self.chunks.next_chunk();
        if let Some(c) = &chunk {
            proof {
                old(self).handed().lemma_flatten_push(c@);
                let size = old(self).size();
                assert(c@ + self.pending() =~= old(self).pending());
                assert(old(self).handed().flatten() + c@ + self.pending() =~= old(
                    self,
                ).handed().flatten() + old(self).pending());
                assert(is_cut(old(self).handed().push(c@), size, false));
            }
            self.handed = Ghost(old(self).handed().push(c@));
        }
        chunk
    }

    /// Ends the stream. Whether this succeeds is up to the compressor. Where it does, what came
    /// out, to the last byte, decompresses to the data that was written.
    pub fn finish(self) -> (r: Result<EndedStream, std::io::Error>)
        requires
            self.wf(),
            self.is_sound(),
        ensures
            r matches Ok(ended) ==> {
                &&& ended.wf()
                &&& ended.size() == self.size()
                &&& ended.input() == self.input()
                &&& ended.handed() == self.handed()
                &&& (self.pending() + self.held_back()).is_prefix_of(ended.pending())
                &&& zstd_content(ended.handed().flatten() + ended.pending()) == self.input()
            },
    {
        let ghost sent = self.handed().flatten() + self.pending();
        let StreamCompressor { writer, chunks, input_bytes, input, handed } = self;
        let mut chunks = chunks;
        match finish_stream(writer) {
            Ok(rest) => {
                chunks.extend(&rest);
                assert(handed@.flatten() + chunks.pending() =~= sent + rest@);
                Ok(EndedStream { chunks, input_bytes, input, handed })
            },
            Err(e) => Err(e),
        }
    }

    /// Ends a stream of which nothing was handed on, and gives all of it.
    pub fn finish_bytes(self) -> (r: Result<CompressedBytes, std::io::Error>)
        requires
            self.wf(),
            self.is_sound(),
            self.handed().len() == 0,
        ensures
            r matches Ok(c) ==> {
                &&& zstd_content(c.bytes@) == self.input()
                &&& c.input_bytes == self.input().len()
                &&& c.compressed_bytes == c.bytes@.len()
            },
    {
        let ghost none = self.handed();
        match self.finish() {
            Ok(ended) => {
                let bytes = ended.chunks.buffer;
                proof {
                    assert(none =~= Seq::<Seq<u8>>::empty());
                    assert(none.flatten() =~= Seq::<u8>::empty());
                    assert(none.flatten() + bytes@ =~= bytes@);
                }
                let compressed_bytes = bytes.len();
                Ok(CompressedBytes { bytes, input_bytes: ended.input_bytes, compressed_bytes })
            },
            Err(e) => Err(e),
        }
    }
}

/// A stream that was compressed to its end, while the last of it is handed on.
pub struct EndedStream {
    chunks: ChunkBuffer,
    input_bytes: usize,
    input: Ghost<Seq<u8>>,
    handed: Ghost<Seq<Seq<u8>>>,
}

impl EndedStream {
    /// The data that was written.
    pub closed spec fn input(self) -> Seq<u8> {
        self.input@
    }

    /// The chunks that were handed on.
    pub closed spec fn handed(self) -> Seq<Seq<u8>> {
        self.handed@
    }

    /// The compressed bytes that wait to be handed on.
    pub closed spec fn pending(self) -> Seq<u8> {
        self.chunks.pending()
    }

    pub closed spec fn size(self) -> nat {
        self.chunks.size()
    }

    /// The chunks are cut as they should be, and with the bytes that wait they decompress to the
    /// data.
    pub closed spec fn wf(self) -> bool {
        &&& self.size() > 0
        &&& self.input_bytes == self.input().len()
        &&& self.chunks.sent() == self.handed().flatten().len()
        &&& is_cut(self.handed(), self.size(), self.pending().len() == 0)
        &&& zstd_content(self.handed().flatten() + self.pending()) == self.input()
    }

    /// Whether counting all that waits stays within the counter.
    pub fn fits_counter(&self) -> (r: bool)
        requires
            self.wf(),
        ensures
            r == (self.handed().flatten().len() + self.pending().len() <= usize::MAX),
    {
        self.chunks.fits_counter()
    }

    /// The next chunk: a whole one, or what is left as the last. Where there is none, all chunks
    /// were handed on: they are of one size but for the last, and together decompress to the data.
    pub fn next_chunk(&mut self) -> (chunk: Option<Vec<u8>>)
        requires
            old(self).wf(),
            old(self).handed().flatten().len() + old(self).pending().len() <= usize::MAX,
        ensures
            final(self).wf(),
            final(self).size() == old(self).size(),
            final(self).input() == old(self).input(),
            match chunk {
                Some(c) => {
                    &&& c@.len() == (if old(self).pending().len() < old(self).size() {
                        old(self).pending().len()
                    } else {
                        old(self).size()
                    })
                    &&& c@.len() > 0
                    &&& c@ + final(self).pending() == old(self).pending()
                    &&& final(self).handed() == old(self).handed().push(c@)
                },
                None => {
                    &&& old(self).pending().len() == 0
                    &&& final(self).pending().len() == 0
                    &&& final(self).handed() == old(self).handed()
                    &&& is_cut(final(self).handed(), final(self).size(), true)
                    &&& zstd_content(final(self).handed().flatten()) == final(self).input()
                },
            },
    {
        let chunk = match self.chunks.next_chunk() {
            Some(c) => Some(c),
            None => self.chunks.last_chunk(),
        };
        match &chunk {
            Some(c) => {
                proof {
                    old(self).handed().lemma_flatten_push(c@);
                    assert(c@ + self.pending() =~= old(self).pending());
                    assert(old(self).handed().flatten() + c@ + self.pending() =~= old(
                        self,
                    ).handed().flatten() + old(self).pending());
                }
                self.handed = Ghost(old(self).handed().push(c@));
            },
            None => {
                assert(self.handed().flatten() + self.pending() =~= self.handed().flatten());
            },
        }
        chunk
    }

    /// How much went in, and how much was handed on.
    pub fn stats(&self) -> (stats: CompressedStreamStats)
        requires
            self.wf(),
        ensures
            stats.input_bytes == self.input().len(),
            stats.compressed_bytes == self.handed().flatten().len(),
    {
        CompressedStreamStats {
            input_bytes: self.input_bytes,
            compressed_bytes: self.chunks.compressed_bytes(),
        }
    }
}

} // verus!
