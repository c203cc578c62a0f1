//! Persistence of generated chunks: what a chunk's file is called, what
//! it holds, and the queue of files waiting to be written.
//!
//! A chunk's file holds the chunk's buffer in the compact encoding,
//! compressed as a zlib stream. Reading and writing the files is left to
//! the caller; nothing here blocks.

use flate2::read::ZlibDecoder;
use flate2::write::ZlibEncoder;
use flate2::Compression;
use std::io::Read;
use std::io::Write;
use std::sync::Arc;
use vstd::prelude::*;
use vstd::string::StringExecFns;
use crate::chunk::ChunkCoord;
use crate::codec::{
    buffer_bytes, buffer_view, lemma_buffer_round_trip, put_buffer, read_buffer, take_buffer,
    BufferView,
};
use crate::voxel::VoxelBuffer;

verus! {

/// What the compressor makes of `data` at its fastest level: the zlib
/// stream, or `None` where it gives up.
pub uninterp spec fn zlib_compressed(data: Seq<u8>) -> Option<Seq<u8>>;

/// What the decompressor reads out of the zlib stream `data`, or `None`
/// where `data` is no zlib stream.
pub uninterp spec fn zlib_inflated(data: Seq<u8>) -> Option<Seq<u8>>;

/// Compresses `data` into a zlib stream at the fastest level.
///
/// Trusted: writes `data` through `flate2::write::ZlibEncoder` made with
/// `Compression::fast()` and finishes the stream. The contract names the
/// outcome, which the data alone decides: the stream, or `None` for the
/// encoder's error. It says that a stream decompresses to `data` again,
/// as a lossless compressor's output does; it does not promise that the
/// call succeeds.
#[verifier::external_body]
pub(crate) fn compress(data: &Vec<u8>) -> (r: Option<Vec<u8>>)
    ensures
        match r {
            Some(stream) => zlib_compressed(data@) == Some(stream@),
            None => zlib_compressed(data@) is None,
        },
        r is Some ==> zlib_inflated(r->Some_0@) == Some(data@),
{
    let mut encoder = ZlibEncoder::new(Vec::new(), Compression::fast());
    match encoder.write_all(data) {
        Ok(()) => match encoder.finish() {
            Ok(compressed) => Some(compressed),
            Err(_) => None,
        },
        Err(_) => None,
    }
}

/// Decompresses the zlib stream `data`.
///
/// Trusted: reads `data` to its end through `flate2::read::ZlibDecoder`.
/// The contract names what comes out; `None` stands for the decoder's
/// error.
#[verifier::external_body]
pub(crate) fn decompress(data: &Vec<u8>) -> (r: Option<Vec<u8>>)
    ensures
        match r {
            Some(raw) => zlib_inflated(data@) == Some(raw@),
            None => zlib_inflated(data@) is None,
        },
{
    let mut decoder = ZlibDecoder::new(&data[..]);
    let mut raw = Vec::new();
    match decoder.read_to_end(&mut raw) {
        Ok(_) => Some(raw),
        Err(_) => None,
    }
}

/// The character of the decimal digit `d`.
pub open spec fn digit_char(d: nat) -> char {
    if d == 0 {
        '0'
    } else if d == 1 {
        '1'
    } else if d == 2 {
        '2'
    } else if d == 3 {
        '3'
    } else if d == 4 {
        '4'
    } else if d == 5 {
        '5'
    } else if d == 6 {
        '6'
    } else if d == 7 {
        '7'
    } else if d == 8 {
        '8'
    } else {
        '9'
    }
}

/// The decimal digits of `n`, without leading zeros.
pub open spec fn digits(n: nat) -> Seq<char>
    decreases n,
{
    if n < 10 {
        seq![digit_char(n)]
    } else {
        digits(n / 10).push(digit_char(n % 10))
    }
}

/// `n` in decimal, with a minus sign before a negative number.
pub open spec fn decimal(n: int) -> Seq<char> {
    if n < 0 {
        seq!['-'] + digits((-n) as nat)
    } else {
        digits(n as nat)
    }
}

/// The one-character text of the decimal digit `d`.
fn digit_str(d: u32) -> (s: &'static str)
    requires
        d < 10,
    ensures
        s@ == seq![digit_char(d as nat)],
{
    proof {
        reveal_strlit("0");
        reveal_strlit("1");
        reveal_strlit("2");
        reveal_strlit("3");
        reveal_strlit("4");
        reveal_strlit("5");
        reveal_strlit("6");
        reveal_strlit("7");
        reveal_strlit("8");
        reveal_strlit("9");
    }
    let s = if d == 0 {
        "0"
    } else if d == 1 {
        "1"
    } else if d == 2 {
        "2"
    } else if d == 3 {
        "3"
    } else if d == 4 {
        "4"
    } else if d == 5 {
        "5"
    } else if d == 6 {
        "6"
    } else if d == 7 {
        "7"
    } else if d == 8 {
        "8"
    } else {
        "9"
    };
    assert(s@ =~= seq![digit_char(d as nat)]);
    s
}

/// Appends the decimal digits of `n` to `out`.
fn push_digits(out: &mut String, n: u32)
    ensures
        final(out)@ == old(out)@ + digits(n as nat),
    decreases n,
{
    if n >= 10 {
        push_digits(out, n / 10);
    }
    out.append(digit_str(n % 10));
    assert(out@ =~= old(out)@ + digits(n as nat));
}

/// Appends `n` in decimal to `out`.
pub fn push_decimal(out: &mut String, n: i32)
    ensures
        final(out)@ == old(out)@ + decimal(n as int),
{
    if n < 0 {
        proof {
            reveal_strlit("-");
        }
        out.append("-");
        push_digits(out, (-(n as i64)) as u32);
        assert(out@ =~= old(out)@ + decimal(n as int));
    } else {
        push_digits(out, n as u32);
    }
}

/// The name of the file of the chunk at `pos`, below the store's
/// directory.
pub open spec fn chunk_path(pos: ChunkCoord) -> Seq<char> {
    "chunks/"@ + decimal(pos.x as int) + "_"@ + decimal(pos.y as int) + "_"@ + decimal(
        pos.z as int,
    ) + ".dat"@
}

/// Whether `c` is a decimal digit.
pub open spec fn is_digit(c: char) -> bool {
    c == '0' || c == '1' || c == '2' || c == '3' || c == '4' || c == '5' || c == '6' || c == '7'
        || c == '8' || c == '9'
}

proof fn lemma_digits_shape(n: nat)
    ensures
        digits(n).len() >= 1,
        n >= 10 ==> digits(n).len() >= 2,
        forall|i: int| 0 <= i < digits(n).len() ==> is_digit(#[trigger] digits(n)[i]),
    decreases n,
{
    if n >= 10 {
        lemma_digits_shape(n / 10);
    }
}

proof fn lemma_digits_injective(a: nat, b: nat)
    requires
        digits(a) == digits(b),
    ensures
        a == b,
    decreases a,
{
    lemma_digits_shape(a);
    lemma_digits_shape(b);
    if a < 10 {
        assert(digits(a)[0] == digit_char(a));
        assert(digits(b)[0] == digit_char(b));
    } else {
        let da = digits(a / 10);
        let db = digits(b / 10);
        assert(digits(a).drop_last() =~= da);
        assert(digits(b).drop_last() =~= db);
        assert(digits(a).last() == digit_char(a % 10));
        assert(digits(b).last() == digit_char(b % 10));
        lemma_digits_injective(a / 10, b / 10);
    }
}

/// A number's decimal form is made of digits after an optional minus
/// sign, and no two numbers share one.
proof fn lemma_decimal(a: int, b: int)
    ensures
        forall|i: int| 0 <= i < decimal(a).len() ==> #[trigger] decimal(a)[i] != '_',
        decimal(a) == decimal(b) ==> a == b,
{
    lemma_digits_shape(if a < 0 { (-a) as nat } else { a as nat });
    lemma_digits_shape(if b < 0 { (-b) as nat } else { b as nat });
    assert forall|i: int| 0 <= i < decimal(a).len() implies #[trigger] decimal(a)[i] != '_' by {
        if a < 0 && i > 0 {
            assert(decimal(a)[i] == digits((-a) as nat)[i - 1]);
        }
    }
    if decimal(a) == decimal(b) {
        if a < 0 {
            assert(decimal(a)[0] == '-');
            if b >= 0 {
                assert(is_digit(digits(b as nat)[0]));
            }
            assert(decimal(a).drop_first() =~= digits((-a) as nat));
            assert(decimal(b).drop_first() =~= digits((-b) as nat));
            lemma_digits_injective((-a) as nat, (-b) as nat);
        } else {
            if b < 0 {
                assert(decimal(b)[0] == '-');
                assert(is_digit(digits(a as nat)[0]));
            }
            lemma_digits_injective(a as nat, b as nat);
        }
    }
}

/// Two texts without an underscore that are followed by an underscore
/// and agree together with what follows are the same text, and so is
/// what follows them.
proof fn lemma_split_at_underscore(
    a1: Seq<char>,
    r1: Seq<char>,
    a2: Seq<char>,
    r2: Seq<char>,
)
    requires
        forall|i: int| 0 <= i < a1.len() ==> #[trigger] a1[i] != '_',
        forall|i: int| 0 <= i < a2.len() ==> #[trigger] a2[i] != '_',
        a1 + seq!['_'] + r1 == a2 + seq!['_'] + r2,
    ensures
        a1 == a2,
        r1 == r2,
{
    let s1 = a1 + seq!['_'] + r1;
    let s2 = a2 + seq!['_'] + r2;
    assert(s1[a1.len() as int] == '_');
    assert(s2[a2.len() as int] == '_');
    if a1.len() < a2.len() {
        assert(s2[a1.len() as int] == a2[a1.len() as int]);
    } else if a2.len() < a1.len() {
        assert(s1[a2.len() as int] == a1[a2.len() as int]);
    }
    assert(a1 =~= a2) by {
        assert forall|i: int| 0 <= i < a1.len() implies a1[i] == a2[i] by {
            assert(s1[i] == a1[i]);
            assert(s2[i] == a2[i]);
        }
    }
    assert(r1 =~= r2) by {
        assert(s1.len() == s2.len());
        assert forall|i: int| 0 <= i < r1.len() implies r1[i] == r2[i] by {
            assert(s1[a1.len() + 1 + i] == r1[i]);
            assert(s2[a2.len() + 1 + i] == r2[i]);
        }
    }
}

/// What follows the directory in a chunk's file name.
spec fn path_tail(pos: ChunkCoord) -> Seq<char> {
    decimal(pos.x as int) + seq!['_'] + (decimal(pos.y as int) + seq!['_'] + (decimal(
        pos.z as int,
    ) + ".dat"@))
}

proof fn lemma_path_tail(pos: ChunkCoord)
    ensures
        chunk_path(pos) == "chunks/"@ + path_tail(pos),
        path_tail(pos) == chunk_path(pos).skip("chunks/"@.len() as int),
{
    reveal_strlit("_");
    assert("_"@ =~= seq!['_']);
    assert(chunk_path(pos) =~= "chunks/"@ + path_tail(pos));
    assert(path_tail(pos) =~= ("chunks/"@ + path_tail(pos)).skip("chunks/"@.len() as int));
}

/// Two texts that agree once the same text is put behind them are the
/// same text.
proof fn lemma_same_suffix(a: Seq<char>, b: Seq<char>, s: Seq<char>)
    requires
        a + s == b + s,
    ensures
        a == b,
{
    assert((a + s).len() == a.len() + s.len());
    assert((b + s).len() == b.len() + s.len());
    assert(a.len() == b.len());
    assert forall|i: int| 0 <= i < a.len() implies a[i] == b[i] by {
        assert((a + s)[i] == a[i]);
        assert((b + s)[i] == b[i]);
    }
    assert(a =~= b);
}

/// One file per chunk: no two chunks share a file name.
pub proof fn lemma_chunk_paths_distinct(a: ChunkCoord, b: ChunkCoord)
    requires
        chunk_path(a) == chunk_path(b),
    ensures
        a == b,
{
    let s = ".dat"@;
    let ax = decimal(a.x as int);
    let ay = decimal(a.y as int);
    let az = decimal(a.z as int);
    let bx = decimal(b.x as int);
    let by = decimal(b.y as int);
    let bz = decimal(b.z as int);
    lemma_path_tail(a);
    lemma_path_tail(b);
    lemma_decimal(a.x as int, b.x as int);
    lemma_decimal(b.x as int, a.x as int);
    lemma_split_at_underscore(ax, ay + seq!['_'] + (az + s), bx, by + seq!['_'] + (bz + s));
    lemma_decimal(a.y as int, b.y as int);
    lemma_decimal(b.y as int, a.y as int);
    lemma_split_at_underscore(ay, az + s, by, bz + s);
    lemma_same_suffix(az, bz, s);
    lemma_decimal(a.z as int, b.z as int);
}

/// What a chunk's file holds when nothing is lost on the way: the
/// buffer in the compact encoding.
pub open spec fn chunk_bytes(buffer: BufferView) -> Seq<u8> {
    buffer_bytes(buffer)
}

/// The buffer that the uncompressed bytes `raw` stand for, if any.
pub open spec fn chunk_of_bytes(raw: Seq<u8>) -> Option<BufferView> {
    match take_buffer(raw) {
        Ok((buffer, _)) => Some(buffer),
        Err(_) => None,
    }
}

/// The buffer that a chunk's file stands for: none where there is no
/// file, where the file is no zlib stream, or where what it holds is no
/// buffer.
pub open spec fn stored_chunk(file: Option<Seq<u8>>) -> Option<BufferView> {
    match file {
        None => None,
        Some(compressed) => match zlib_inflated(compressed) {
            None => None,
            Some(raw) => chunk_of_bytes(raw),
        },
    }
}

/// The travelling form of an optional buffer.
pub open spec fn option_view(r: Option<VoxelBuffer>) -> Option<BufferView> {
    match r {
        Some(buffer) => Some(buffer_view(&buffer)),
        None => None,
    }
}

/// The travelling form of an optional shared buffer.
pub open spec fn shared_view(r: Option<Arc<VoxelBuffer>>) -> Option<BufferView> {
    match r {
        Some(buffer) => Some(buffer_view(&*buffer)),
        None => None,
    }
}

/// The contents of a file that may be missing.
pub open spec fn file_view(file: Option<Vec<u8>>) -> Option<Seq<u8>> {
    match file {
        Some(bytes) => Some(bytes@),
        None => None,
    }
}

/// A buffer is read back from its own bytes.
pub proof fn lemma_chunk_bytes_round_trip(buffer: BufferView)
    requires
        buffer.voxels.len() <= u64::MAX,
    ensures
        chunk_of_bytes(chunk_bytes(buffer)) == Some(buffer),
{
    lemma_buffer_round_trip(buffer, Seq::empty());
    assert(buffer_bytes(buffer) + Seq::<u8>::empty() =~= buffer_bytes(buffer));
}

/// Persistence round trip: a file that decompresses to the bytes of a
/// buffer is read back as that buffer.
pub proof fn lemma_stored_chunk_round_trip(buffer: BufferView, file: Seq<u8>)
    requires
        buffer.voxels.len() <= u64::MAX,
        zlib_inflated(file) == Some(chunk_bytes(buffer)),
    ensures
        stored_chunk(Some(file)) == Some(buffer),
{
    lemma_chunk_bytes_round_trip(buffer);
}

/// The bytes of `buffer` before compression.
pub fn encode_chunk(buffer: &VoxelBuffer) -> (raw: Vec<u8>)
    ensures
        raw@ == chunk_bytes(buffer_view(buffer)),
        buffer.voxels@.len() <= usize::MAX,
{
    let mut raw: Vec<u8> = Vec::new();
    put_buffer(&mut raw, buffer);
    assert(raw@ =~= chunk_bytes(buffer_view(buffer)));
    raw
}

/// The buffer that the uncompressed bytes `raw` stand for, if any.
pub fn decode_chunk(raw: &Vec<u8>) -> (r: Option<VoxelBuffer>)
    ensures
        option_view(r) == chunk_of_bytes(raw@),
{
    assert(raw@.skip(0) =~= raw@);
    match read_buffer(raw.as_slice(), 0) {
        Ok((buffer, _)) => Some(buffer),
        Err(_) => None,
    }
}

/// A chunk's file, ready to be written.
#[derive(Debug, Clone, PartialEq, Eq)]
pub struct SavedChunk {
    pub pos: ChunkCoord,
    /// The file's contents.
    pub bytes: Vec<u8>,
}

/// Whether `file` is the file that saving `buffer` at `pos` queues: the
/// compressed bytes of the buffer, which are read back as the buffer.
pub open spec fn is_file_of(file: SavedChunk, pos: ChunkCoord, buffer: BufferView) -> bool {
    &&& file.pos == pos
    &&& zlib_compressed(chunk_bytes(buffer)) == Some(file.bytes@)
    &&& stored_chunk(Some(file.bytes@)) == Some(buffer)
}

/// The store of generated chunks, as far as it is decided here: the
/// files waiting to be written, oldest first.
pub struct Storage {
    saves: Vec<SavedChunk>,
}

impl View for Storage {
    type V = Seq<SavedChunk>;

    closed spec fn view(&self) -> Seq<SavedChunk> {
        self.saves@
    }
}

impl Storage {
    /// A store with nothing waiting to be written.
    pub fn new() -> (s: Storage)
        ensures
            s@ == Seq::<SavedChunk>::empty(),
    {
        Storage { saves: Vec::new() }
    }

    /// The name of the file of the chunk at `pos`, below the store's
    /// directory: `chunks/X_Y_Z.dat`.
    pub fn chunk_file_name(pos: ChunkCoord) -> (name: String)
        ensures
            name@ == chunk_path(pos),
    {
        let mut name = String::from_str("chunks/");
        push_decimal(&mut name, pos.x);
        name.append("_");
        push_decimal(&mut name, pos.y);
        name.append("_");
        push_decimal(&mut name, pos.z);
        name.append(".dat");
        name
    }

    /// The chunk that the file contents `file` stand for; `None` where
    /// there was no file, where it is no zlib stream, or where what it
    /// holds is no buffer.
    pub fn get_chunk(&self, file: &Option<Vec<u8>>) -> (r: Option<Arc<VoxelBuffer>>)
        ensures
            shared_view(r) == stored_chunk(file_view(*file)),
    {
        match file {
            None => None,
            Some(compressed) => Storage::unpack(decompress(compressed)),
        }
    }

    /// The chunks that the file contents `files` stand for, one by one.
    pub fn get_chunks(&self, files: &Vec<Option<Vec<u8>>>) -> (r: Vec<Option<Arc<VoxelBuffer>>>)
        ensures
            r@.len() == files@.len(),
            forall|i: int|
                0 <= i < files@.len() ==> shared_view(#[trigger] r@[i]) == stored_chunk(
                    file_view(files@[i]),
                ),
    {
        let mut r: Vec<Option<Arc<VoxelBuffer>>> = Vec::new();
        let mut i: usize = 0;
        while i < files.len()
            invariant
                i <= files@.len(),
                r@.len() == i,
                forall|k: int|
                    0 <= k < i ==> shared_view(#[trigger] r@[k]) == stored_chunk(
                        file_view(files@[k]),
                    ),
            decreases files@.len() - i,
        {
            r.push(self.get_chunk(&files[i]));
            i += 1;
        }
        r
    }

    /// The chunk that the decompressed file contents `raw` stand for.
    pub fn unpack(raw: Option<Vec<u8>>) -> (r: Option<Arc<VoxelBuffer>>)
        ensures
            shared_view(r) == match raw {
                Some(bytes) => chunk_of_bytes(bytes@),
                None => None,
            },
    {
        match raw {
            None => None,
            Some(bytes) => match decode_chunk(&bytes) {
                Some(buffer) => Some(Arc::new(buffer)),
                None => None,
            },
        }
    }

    /// Encodes and compresses `buffer` and queues the result as the file
    /// of `pos`: one file joins the end of the queue, and it is read
    /// back as `buffer`. Where compression fails nothing is queued and
    /// nothing is reported.
    pub fn save_chunk(&mut self, pos: ChunkCoord, buffer: &VoxelBuffer)
        ensures
            match zlib_compressed(chunk_bytes(buffer_view(buffer))) {
                Some(_) => {
                    &&& final(self)@.len() == old(self)@.len() + 1
                    &&& final(self)@.drop_last() == old(self)@
                    &&& is_file_of(final(self)@.last(), pos, buffer_view(buffer))
                },
                None => final(self)@ == old(self)@,
            },
    {
        let raw = encode_chunk(buffer);
        let compressed = compress(&raw);
        proof {
            if compressed is Some {
                lemma_stored_chunk_round_trip(buffer_view(buffer), compressed->Some_0@);
            }
        }
        self.enqueue(pos, compressed);
        proof {
            if compressed is Some {
                assert(self@.drop_last() =~= old(self)@);
            }
        }
    }

    /// Queues `compressed` as the file of `pos`, or nothing where there
    /// is nothing to write.
    pub fn enqueue(&mut self, pos: ChunkCoord, compressed: Option<Vec<u8>>)
        ensures
            final(self)@ == match compressed {
                Some(bytes) => old(self)@.push(SavedChunk { pos, bytes }),
                None => old(self)@,
            },
    {
        match compressed {
            Some(bytes) => {
                self.saves.push(SavedChunk { pos, bytes });
            },
            None => {},
        }
    }

    /// Hands out the files waiting to be written, oldest first, and
    /// empties the queue.
    pub fn take_saves(&mut self) -> (files: Vec<SavedChunk>)
        ensures
            files@ == old(self)@,
            final(self)@ == Seq::<SavedChunk>::empty(),
    {
        let mut files: Vec<SavedChunk> = Vec::new();
        std::mem::swap(&mut self.saves, &mut files);
        files
    }
}

} // verus!
