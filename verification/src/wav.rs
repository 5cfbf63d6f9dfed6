//! The byte layout of wave files: chunks, the `fmt ` chunk, interleaved sample
//! data and the RIFF container around them.

use vstd::prelude::*;

verus! {

/// The format of samples used by a wave file.
#[derive(Debug, Clone, Copy, PartialEq, Eq, Structural, PartialOrd, Ord)]
#[non_exhaustive]
pub enum WavFormat {
    Pcm,
    Float,
}

/// The format code a wave file stores for `f`.
pub open spec fn format_code(f: WavFormat) -> nat {
    match f {
        WavFormat::Pcm => 1,
        WavFormat::Float => 3,
    }
}

impl WavFormat {
    /// The format code stored in the `fmt ` chunk.
    pub fn code(&self) -> (r: u16)
        ensures
            r == format_code(*self),
    {
        match self {
            WavFormat::Pcm => 1,
            WavFormat::Float => 3,
        }
    }
}

/// Metadata of a wave file's `fmt ` chunk.
#[derive(Debug, Clone)]
pub struct WavFormatMeta {
    pub audio_format: WavFormat,
    pub num_channels: u16,
    pub sample_rate: u32,
    pub bits_per_sample: u16,
}

/// The bytes of a chunk: borrowed from elsewhere or owned by the chunk.
#[derive(Debug, Clone)]
pub enum ChunkData<'a> {
    Borrowed(&'a [u8]),
    Owned(Vec<u8>),
}

impl<'a> View for ChunkData<'a> {
    type V = Seq<u8>;

    open spec fn view(&self) -> Seq<u8> {
        match self {
            ChunkData::Borrowed(b) => b@,
            ChunkData::Owned(v) => v@,
        }
    }
}

impl<'a> ChunkData<'a> {
    pub fn as_slice(&self) -> (r: &[u8])
        ensures
            r@ == self@,
    {
        match self {
            ChunkData::Borrowed(b) => b,
            ChunkData::Owned(v) => v.as_slice(),
        }
    }

    pub fn len(&self) -> (r: usize)
        ensures
            r == self@.len(),
    {
        self.as_slice().len()
    }
}

/// `x` as two little-endian bytes.
pub open spec fn le16(x: nat) -> Seq<u8> {
    seq![(x % 256) as u8, (x / 256 % 256) as u8]
}

/// `x` as four little-endian bytes.
pub open spec fn le32(x: nat) -> Seq<u8> {
    seq![
        (x % 256) as u8,
        (x / 256 % 256) as u8,
        (x / 65536 % 256) as u8,
        (x / 16777216 % 256) as u8,
    ]
}

/// Two little-endian bytes decode back to the value they were written for: the
/// low byte, plus 256 times the high byte.
pub proof fn lemma_le16_decodes(x: nat)
    requires
        x < 0x1_0000,
    ensures
        le16(x).len() == 2,
        le16(x)[0] + 256 * le16(x)[1] == x,
{
    let y = x as u16;
    assert(y % 256 + 256 * (y / 256 % 256) == y) by (bit_vector);
}

/// Four little-endian bytes decode back to the value they were written for:
/// the low byte first, each next one worth 256 times the one before.
pub proof fn lemma_le32_decodes(x: nat)
    requires
        x < 0x1_0000_0000,
    ensures
        le32(x).len() == 4,
        le32(x)[0] + 256 * le32(x)[1] + 65536 * le32(x)[2] + 16777216 * le32(x)[3] == x,
{
    let y = x as u32;
    assert(y % 256 + 256 * (y / 256 % 256) + 65536 * (y / 65536 % 256) + 16777216 * (y / 16777216 % 256) == y)
        by (bit_vector);
}

/// The id `fmt `.
pub open spec fn fmt_id() -> Seq<u8> {
    seq![0x66u8, 0x6du8, 0x74u8, 0x20u8]
}

/// The id `data`.
pub open spec fn data_id() -> Seq<u8> {
    seq![0x64u8, 0x61u8, 0x74u8, 0x61u8]
}

/// The bytes per second that `meta` describes.
pub open spec fn byte_rate(meta: WavFormatMeta) -> nat {
    (meta.sample_rate * meta.num_channels * meta.bits_per_sample / 8) as nat
}

/// The bytes per frame (one sample of every channel) that `meta` describes.
pub open spec fn block_align(meta: WavFormatMeta) -> nat {
    (meta.num_channels * (meta.bits_per_sample / 8)) as nat
}

/// The 16 data bytes of the `fmt ` chunk for `meta`.
pub open spec fn format_chunk_data(meta: WavFormatMeta) -> Seq<u8> {
    le16(format_code(meta.audio_format)) + le16(meta.num_channels as nat) + le32(
        meta.sample_rate as nat,
    ) + le32(byte_rate(meta)) + le16(block_align(meta)) + le16(meta.bits_per_sample as nat)
}

/// The byte rate and the block align of `meta` fit their fields.
pub open spec fn format_fits(meta: WavFormatMeta) -> bool {
    &&& meta.sample_rate * meta.num_channels <= u32::MAX
    &&& meta.sample_rate * meta.num_channels * meta.bits_per_sample <= u32::MAX
    &&& meta.num_channels * (meta.bits_per_sample / 8) <= u16::MAX
}

/// The little-endian 16-bit number at bytes `i..i + 2` of `d`.
pub open spec fn u16_at(d: Seq<u8>, i: int) -> int {
    d[i] + 256 * d[i + 1]
}

/// The little-endian 32-bit number at bytes `i..i + 4` of `d`.
pub open spec fn u32_at(d: Seq<u8>, i: int) -> int {
    d[i] + 256 * d[i + 1] + 65536 * d[i + 2] + 16777216 * d[i + 3]
}

/// The `fmt ` data read back field by field: the format code (1 for PCM, 3
/// for float) at bytes 0..2, the channels at 2..4, the sample rate at 4..8, the
/// byte rate at 8..12, the block align at 12..14 and the bits per sample at
/// 14..16. The block align is the bytes of one sample of every channel, and the
/// byte rate the bits per second over 8; for whole-byte samples that is the
/// sample rate times the block align.
pub proof fn lemma_format_fields(meta: WavFormatMeta)
    requires
        format_fits(meta),
    ensures
        format_chunk_data(meta).len() == 16,
        u16_at(format_chunk_data(meta), 0) == if meta.audio_format == WavFormat::Pcm {
            1int
        } else {
            3int
        },
        u16_at(format_chunk_data(meta), 2) == meta.num_channels,
        u32_at(format_chunk_data(meta), 4) == meta.sample_rate,
        u32_at(format_chunk_data(meta), 8) == meta.sample_rate * meta.num_channels * meta.bits_per_sample / 8,
        u16_at(format_chunk_data(meta), 12) == meta.num_channels * (meta.bits_per_sample / 8),
        u16_at(format_chunk_data(meta), 14) == meta.bits_per_sample,
        meta.bits_per_sample % 8 == 0 ==> u32_at(format_chunk_data(meta), 8) == meta.sample_rate * u16_at(
            format_chunk_data(meta),
            12,
        ),
{
    let d = format_chunk_data(meta);
    let code = format_code(meta.audio_format);
    let sr = meta.sample_rate as int;
    let ch = meta.num_channels as int;
    let bits = meta.bits_per_sample as int;
    assert(sr * ch * bits / 8 <= sr * ch * bits) by (nonlinear_arith)
        requires
            sr >= 0,
            ch >= 0,
            bits >= 0,
    {
    }
    lemma_le16_decodes(code);
    lemma_le16_decodes(meta.num_channels as nat);
    lemma_le32_decodes(meta.sample_rate as nat);
    lemma_le32_decodes(byte_rate(meta));
    lemma_le16_decodes(block_align(meta));
    lemma_le16_decodes(meta.bits_per_sample as nat);
    let a = le16(code);
    let b = le16(meta.num_channels as nat);
    let c = le32(meta.sample_rate as nat);
    let e = le32(byte_rate(meta));
    let f = le16(block_align(meta));
    let g = le16(meta.bits_per_sample as nat);
    assert(d == a + b + c + e + f + g);
    assert(d[0] == a[0] && d[1] == a[1]);
    assert(d[2] == b[0] && d[3] == b[1]);
    assert(d[4] == c[0] && d[5] == c[1] && d[6] == c[2] && d[7] == c[3]);
    assert(d[8] == e[0] && d[9] == e[1] && d[10] == e[2] && d[11] == e[3]);
    assert(d[12] == f[0] && d[13] == f[1]);
    assert(d[14] == g[0] && d[15] == g[1]);
    if bits % 8 == 0 {
        assert(sr * ch * bits / 8 == sr * (ch * (bits / 8))) by (nonlinear_arith)
            requires
                bits % 8 == 0,
                bits >= 0,
        {
            let q = bits / 8;
            assert(bits == 8 * q);
            assert(sr * ch * bits == 8 * (sr * (ch * q)));
        }
    }
}

/// Appends `x` as two little-endian bytes.
fn push_le16(out: &mut Vec<u8>, x: u16)
    ensures
        final(out)@ == old(out)@ + le16(x as nat),
{
    out.push((x % 256) as u8);
    out.push((x / 256) as u8);
    assert(final(out)@ =~= old(out)@ + le16(x as nat));
}

/// Appends `x` as four little-endian bytes.
fn push_le32(out: &mut Vec<u8>, x: u32)
    ensures
        final(out)@ == old(out)@ + le32(x as nat),
{
    out.push((x % 256) as u8);
    out.push((x / 256 % 256) as u8);
    out.push((x / 65536 % 256) as u8);
    out.push((x / 16777216) as u8);
    assert(final(out)@ =~= old(out)@ + le32(x as nat));
}

/// Appends `bytes`.
fn push_bytes(out: &mut Vec<u8>, bytes: &[u8])
    ensures
        final(out)@ == old(out)@ + bytes@,
{
    let ghost start = out@;
    for i in 0..bytes.len()
        invariant
            out@ == start + bytes@.take(i as int),
    {
        out.push(bytes[i]);
        assert(out@ =~= start + bytes@.take(i + 1));
    }
    assert(bytes@.take(bytes@.len() as int) =~= bytes@);
}

/// Whether two chunk ids are equal.
fn same_id(a: &[u8; 4], b: &[u8; 4]) -> (r: bool)
    ensures
        r == (a@ == b@),
{
    let r = a[0] == b[0] && a[1] == b[1] && a[2] == b[2] && a[3] == b[3];
    proof {
        if r {
            assert(a@ =~= b@);
        }
    }
    r
}

/// A single chunk of a wave file.
#[derive(Debug, Clone)]
pub struct WavChunk<'a> {
    pub id: [u8; 4],
    pub data: ChunkData<'a>,
}

/// The bytes a chunk is written as: its id, its data length as four
/// little-endian bytes, and its data.
pub open spec fn chunk_bytes(c: WavChunk) -> Seq<u8> {
    c.id@ + le32(c.data@.len()) + c.data@
}

impl WavChunk<'static> {
    /// The `fmt ` chunk whose data is derived from `meta`.
    pub fn new_format(meta: &WavFormatMeta) -> (r: Self)
        requires
            format_fits(*meta),
        ensures
            r.id@ == fmt_id(),
            r.data@ == format_chunk_data(*meta),
            r.data is Owned,
    {
        let mut data: Vec<u8> = Vec::with_capacity(32);
        let rate_channels: u32 = meta.sample_rate * meta.num_channels as u32;
        let byte_rate: u32 = rate_channels * meta.bits_per_sample as u32 / 8;
        let block_align: u16 = meta.num_channels * (meta.bits_per_sample / 8);
        push_le16(&mut data, meta.audio_format.code());
        push_le16(&mut data, meta.num_channels);
        push_le32(&mut data, meta.sample_rate);
        push_le32(&mut data, byte_rate);
        push_le16(&mut data, block_align);
        push_le16(&mut data, meta.bits_per_sample);
        let id: [u8; 4] = [0x66, 0x6d, 0x74, 0x20];
        assert(id@ =~= fmt_id());
        assert(data@ =~= format_chunk_data(*meta));
        WavChunk { id, data: ChunkData::Owned(data) }
    }
}

impl<'a> WavChunk<'a> {
    /// A `data` chunk holding `data`.
    pub fn new_data(data: ChunkData<'a>) -> (r: Self)
        ensures
            r.id@ == data_id(),
            r.data == data,
    {
        let id: [u8; 4] = [0x64, 0x61, 0x74, 0x61];
        assert(id@ =~= data_id());
        WavChunk { id, data }
    }

    /// Appends the chunk's bytes (id, data length, data) to `out`.
    pub fn write(&self, out: &mut Vec<u8>)
        requires
            self.data@.len() <= u32::MAX,
        ensures
            final(out)@ == old(out)@ + chunk_bytes(*self),
    {
        let bytes = self.data.as_slice();
        let chunk_size = bytes.len() as u32;
        push_bytes(out, self.id.as_slice());
        push_le32(out, chunk_size);
        push_bytes(out, bytes);
        assert(final(out)@ =~= old(out)@ + chunk_bytes(*self));
    }

    /// A chunk with the same id and bytes that owns its data: owned data is kept,
    /// borrowed data is copied.
    pub fn into_owned(self) -> (r: WavChunk<'static>)
        ensures
            r.id@ == self.id@,
            r.data@ == self.data@,
            r.data is Owned,
            self.data matches ChunkData::Owned(v) ==> r.data == ChunkData::<'static>::Owned(v),
    {
        let data = match self.data {
            ChunkData::Borrowed(b) => {
                let mut v: Vec<u8> = Vec::new();
                push_bytes(&mut v, b);
                v
            },
            ChunkData::Owned(v) => v,
        };
        WavChunk { data: ChunkData::Owned(data), id: self.id }
    }

    /// The chunk as an owned one, or itself back when it borrows its data.
    pub fn try_into_owned(self) -> (r: Result<WavChunk<'static>, Self>)
        ensures
            self.data is Borrowed ==> r == Err::<WavChunk<'static>, Self>(self),
            self.data matches ChunkData::Owned(v) ==> r matches Ok(c) && c.id == self.id && c.data
                == ChunkData::<'static>::Owned(v),
    {
        match self.data {
            ChunkData::Borrowed(_) => Err(self),
            ChunkData::Owned(data) => Ok(WavChunk { data: ChunkData::Owned(data), id: self.id }),
        }
    }

    /// Whether the chunk owns the data it points to.
    pub fn is_owned(&self) -> (r: bool)
        ensures
            r == self.data is Owned,
    {
        match self.data {
            ChunkData::Owned(_) => true,
            ChunkData::Borrowed(_) => false,
        }
    }

    pub fn is_fmt(&self) -> (r: bool)
        ensures
            r == (self.id@ == fmt_id()),
    {
        let id: [u8; 4] = [0x66, 0x6d, 0x74, 0x20];
        assert(id@ =~= fmt_id());
        same_id(&self.id, &id)
    }

    pub fn is_data(&self) -> (r: bool)
        ensures
            r == (self.id@ == data_id()),
    {
        let id: [u8; 4] = [0x64, 0x61, 0x74, 0x61];
        assert(id@ =~= data_id());
        same_id(&self.id, &id)
    }
}

/// The bytes of chunks written one after another.
pub open spec fn chunks_bytes(cs: Seq<WavChunk>) -> Seq<u8>
    decreases cs.len(),
{
    if cs.len() == 0 {
        Seq::empty()
    } else {
        chunks_bytes(cs.drop_last()) + chunk_bytes(cs.last())
    }
}

/// The number of bytes of chunks written one after another.
pub open spec fn chunks_size(cs: Seq<WavChunk>) -> nat
    decreases cs.len(),
{
    if cs.len() == 0 {
        0
    } else {
        chunks_size(cs.drop_last()) + cs.last().data@.len() + 8
    }
}

/// The id `RIFF`.
pub open spec fn riff_id() -> Seq<u8> {
    seq![0x52u8, 0x49u8, 0x46u8, 0x46u8]
}

/// The signature `WAVE`.
pub open spec fn wave_id() -> Seq<u8> {
    seq![0x57u8, 0x41u8, 0x56u8, 0x45u8]
}

/// The bytes of a wave file made of `cs`: `RIFF`, the size of what follows
/// (the signature and the chunks) as four little-endian bytes, `WAVE`, and the
/// chunks.
pub open spec fn file_bytes(cs: Seq<WavChunk>) -> Seq<u8> {
    riff_id() + le32(4 + chunks_size(cs)) + wave_id() + chunks_bytes(cs)
}

proof fn lemma_chunks_size(cs: Seq<WavChunk>)
    ensures
        chunks_bytes(cs).len() == chunks_size(cs),
        forall|i: int| 0 <= i < cs.len() ==> (#[trigger] cs[i]).data@.len() + 8 <= chunks_size(cs),
    decreases cs.len(),
{
    if cs.len() > 0 {
        lemma_chunks_size(cs.drop_last());
        assert forall|i: int| 0 <= i < cs.len() implies (#[trigger] cs[i]).data@.len() + 8 <= chunks_size(cs) by {
            if i < cs.len() - 1 {
                assert(cs[i] == cs.drop_last()[i]);
            }
        }
    }
}

/// A wave file split up into its chunks.
#[derive(Debug, Clone)]
pub struct WavFile<'a> {
    chunks: Vec<WavChunk<'a>>,
}

impl<'a> View for WavFile<'a> {
    type V = Seq<WavChunk<'a>>;

    closed spec fn view(&self) -> Seq<WavChunk<'a>> {
        self.chunks@
    }
}

/// The index of the first chunk of `cs` whose id is `id`, if any.
pub open spec fn first_with_id(cs: Seq<WavChunk>, id: Seq<u8>, i: int) -> bool {
    &&& 0 <= i < cs.len()
    &&& cs[i].id@ == id
    &&& forall|j: int| 0 <= j < i ==> (#[trigger] cs[j]).id@ != id
}

impl<'a> WavFile<'a> {
    pub fn from_chunks(chunks: Vec<WavChunk<'a>>) -> (r: Self)
        ensures
            r@ == chunks@,
    {
        WavFile { chunks }
    }

    pub fn into_chunks(self) -> (r: Vec<WavChunk<'a>>)
        ensures
            r@ == self@,
    {
        self.chunks
    }

    pub fn as_chunks(&self) -> (r: &[WavChunk<'a>])
        ensures
            r@ == self@,
    {
        self.chunks.as_slice()
    }

    pub fn push_chunk(&mut self, chunk: WavChunk<'a>)
        ensures
            final(self)@ == old(self)@.push(chunk),
    {
        self.chunks.push(chunk);
    }

    pub fn pop_chunk(&mut self) -> (r: Option<WavChunk<'a>>)
        ensures
            old(self)@.len() == 0 ==> r is None && final(self)@ == old(self)@,
            old(self)@.len() > 0 ==> r == Some(old(self)@.last()) && final(self)@ == old(self)@.drop_last(),
    {
        self.chunks.pop()
    }

    pub fn remove_chunk(&mut self, index: usize) -> (r: WavChunk<'a>)
        requires
            index < old(self)@.len(),
        ensures
            r == old(self)@[index as int],
            final(self)@ == old(self)@.remove(index as int),
    {
        self.chunks.remove(index)
    }

    pub fn swap_remove_chunk(&mut self, index: usize) -> (r: WavChunk<'a>)
        requires
            index < old(self)@.len(),
        ensures
            r == old(self)@[index as int],
            final(self)@ == old(self)@.update(index as int, old(self)@.last()).drop_last(),
    {
        self.chunks.swap_remove(index)
    }

    /// The id and the bytes of every chunk, in order.
    pub fn iter_chunks(&self) -> (r: Vec<([u8; 4], &[u8])>)
        ensures
            r@.len() == self@.len(),
            forall|i: int|
                0 <= i < r@.len() ==> (#[trigger] r@[i]).0@ == self@[i].id@ && r@[i].1@ == self@[i].data@,
    {
        let mut out: Vec<([u8; 4], &[u8])> = Vec::new();
        for i in 0..self.chunks.len()
            invariant
                out@.len() == i,
                forall|j: int|
                    0 <= j < i ==> (#[trigger] out@[j]).0@ == self@[j].id@ && out@[j].1@ == self@[j].data@,
        {
            let c = &self.chunks[i];
            out.push((c.id, c.data.as_slice()));
        }
        out
    }

    /// The index of the first chunk with the given id.
    fn position_of(&self, id: [u8; 4]) -> (r: Option<usize>)
        ensures
            r matches Some(i) ==> first_with_id(self@, id@, i as int),
            r is None ==> forall|j: int| 0 <= j < self@.len() ==> (#[trigger] self@[j]).id@ != id@,
    {
        for i in 0..self.chunks.len()
            invariant
                forall|j: int| 0 <= j < i ==> (#[trigger] self@[j]).id@ != id@,
        {
            if same_id(&self.chunks[i].id, &id) {
                return Some(i);
            }
        }
        None
    }

    /// Returns the first chunk with the given id.
    pub fn get_chunk_by_id(&self, id: [u8; 4]) -> (r: Option<&WavChunk<'a>>)
        ensures
            r matches Some(c) ==> exists|i: int| first_with_id(self@, id@, i) && *c == self@[i],
            r is None ==> forall|j: int| 0 <= j < self@.len() ==> (#[trigger] self@[j]).id@ != id@,
    {
        match self.position_of(id) {
            Some(i) => Some(&self.chunks[i]),
            None => None,
        }
    }

    /// Returns the first `fmt ` chunk.
    pub fn get_fmt_chunk(&self) -> (r: Option<&WavChunk<'a>>)
        ensures
            r matches Some(c) ==> exists|i: int| first_with_id(self@, fmt_id(), i) && *c == self@[i],
            r is None ==> forall|j: int| 0 <= j < self@.len() ==> (#[trigger] self@[j]).id@ != fmt_id(),
    {
        let id: [u8; 4] = [0x66, 0x6d, 0x74, 0x20];
        assert(id@ =~= fmt_id());
        self.get_chunk_by_id(id)
    }

    /// Returns the first `data` chunk.
    pub fn get_data_chunk(&self) -> (r: Option<&WavChunk<'a>>)
        ensures
            r matches Some(c) ==> exists|i: int| first_with_id(self@, data_id(), i) && *c == self@[i],
            r is None ==> forall|j: int| 0 <= j < self@.len() ==> (#[trigger] self@[j]).id@ != data_id(),
    {
        let id: [u8; 4] = [0x64, 0x61, 0x74, 0x61];
        assert(id@ =~= data_id());
        self.get_chunk_by_id(id)
    }

    /// The chunks, for changing them in place: the slice starts out as the
    /// chunks, and what it holds at the end is what the file holds.
    pub fn as_chunks_mut(&mut self) -> (r: &mut [WavChunk<'a>])
        ensures
            r@ == old(self)@,
            final(r)@ == final(self)@,
    {
        self.chunks.as_mut_slice()
    }

        /// Returns the first chunk with the given id, for changing it in place; the
    /// other chunks stay as they are.
    pub fn get_chunk_by_id_mut(&mut self, id: [u8; 4]) -> (r: Option<&mut WavChunk<'a>>)
        ensures
            r matches Some(c) ==> exists|i: int|
                first_with_id(old(self)@, id@, i) && *c == old(self)@[i] && final(self)@ == old(self)@.update(
                    i,
                    *final(c),
                ),
            r is None ==> final(self)@ == old(self)@ && forall|j: int|
                0 <= j < old(self)@.len() ==> (#[trigger] old(self)@[j]).id@ != id@,
    {
        match self.position_of(id) {
            Some(i) => Some(&mut self.chunks[i]),
            None => None,
        }
    }

    /// Returns the first `fmt ` chunk, for changing it in place.
    pub fn get_fmt_chunk_mut(&mut self) -> (r: Option<&mut WavChunk<'a>>)
        ensures
            r matches Some(c) ==> exists|i: int|
                first_with_id(old(self)@, fmt_id(), i) && *c == old(self)@[i] && final(self)@ == old(self)@.update(
                    i,
                    *final(c),
                ),
            r is None ==> final(self)@ == old(self)@ && forall|j: int|
                0 <= j < old(self)@.len() ==> (#[trigger] old(self)@[j]).id@ != fmt_id(),
    {
        let id: [u8; 4] = [0x66, 0x6d, 0x74, 0x20];
        assert(id@ =~= fmt_id());
        self.get_chunk_by_id_mut(id)
    }

    /// Returns the first `data` chunk, for changing it in place.
    pub fn get_data_chunk_mut(&mut self) -> (r: Option<&mut WavChunk<'a>>)
        ensures
            r matches Some(c) ==> exists|i: int|
                first_with_id(old(self)@, data_id(), i) && *c == old(self)@[i] && final(self)@ == old(self)@.update(
                    i,
                    *final(c),
                ),
            r is None ==> final(self)@ == old(self)@ && forall|j: int|
                0 <= j < old(self)@.len() ==> (#[trigger] old(self)@[j]).id@ != data_id(),
    {
        let id: [u8; 4] = [0x64, 0x61, 0x74, 0x61];
        assert(id@ =~= data_id());
        self.get_chunk_by_id_mut(id)
    }

    /// Returns all chunks with the given id, in order.
    pub fn filter_chunks_by_id(&self, id: [u8; 4]) -> (r: Vec<&WavChunk<'a>>)
        ensures
            r@.len() == self@.filter(|c: WavChunk<'a>| c.id@ == id@).len(),
            forall|i: int| 0 <= i < r@.len() ==> *(#[trigger] r@[i]) == self@.filter(|c: WavChunk<'a>| c.id@ == id@)[i],
    {
        let ghost pred = |c: WavChunk<'a>| c.id@ == id@;
        let mut out: Vec<&WavChunk<'a>> = Vec::new();
        for i in 0..self.chunks.len()
            invariant
                pred == (|c: WavChunk<'a>| c.id@ == id@),
                out@.len() == self@.take(i as int).filter(pred).len(),
                forall|j: int| 0 <= j < out@.len() ==> *(#[trigger] out@[j]) == self@.take(i as int).filter(pred)[j],
        {
            proof {
                reveal_with_fuel(Seq::<_>::filter, 1);
                assert(self@.take(i + 1).drop_last() =~= self@.take(i as int));
            }
            if same_id(&self.chunks[i].id, &id) {
                out.push(&self.chunks[i]);
            }
        }
        assert(self@.take(self@.len() as int) =~= self@);
        out
    }

    /// Appends the file's bytes (header, signature and chunks) to `out`.
    pub fn write(&self, out: &mut Vec<u8>)
        requires
            4 + chunks_size(self@) <= u32::MAX,
        ensures
            final(out)@ == old(out)@ + file_bytes(self@),
    {
        proof {
            lemma_chunks_size(self@);
        }
        let n = self.chunks.len();
        let mut file_size: usize = 4;
        for i in 0..n
            invariant
                n == self@.len(),
                4 + chunks_size(self@) <= u32::MAX,
                forall|j: int| 0 <= j < self@.len() ==> (#[trigger] self@[j]).data@.len() + 8 <= chunks_size(self@),
                file_size == 4 + chunks_size(self@.take(i as int)),
        {
            proof {
                assert(self@.take(i + 1).drop_last() =~= self@.take(i as int));
                lemma_chunks_size_prefix(self@, i + 1);
            }
            file_size = file_size + self.chunks[i].data.len() + 8;
        }
        assert(self@.take(n as int) =~= self@);
        let header: [u8; 4] = [0x52, 0x49, 0x46, 0x46];
        let signature: [u8; 4] = [0x57, 0x41, 0x56, 0x45];
        assert(header@ =~= riff_id());
        assert(signature@ =~= wave_id());
        push_bytes(out, header.as_slice());
        push_le32(out, file_size as u32);
        push_bytes(out, signature.as_slice());
        let ghost start = out@;
        for i in 0..n
            invariant
                n == self@.len(),
                forall|j: int| 0 <= j < self@.len() ==> (#[trigger] self@[j]).data@.len() + 8 <= chunks_size(self@),
                4 + chunks_size(self@) <= u32::MAX,
                out@ == start + chunks_bytes(self@.take(i as int)),
        {
            proof {
                assert(self@.take(i + 1).drop_last() =~= self@.take(i as int));
            }
            self.chunks[i].write(out);
            assert(out@ =~= start + chunks_bytes(self@.take(i + 1)));
        }
        assert(final(out)@ =~= old(out)@ + file_bytes(self@));
    }

    /// The file with every chunk made owned (see [`WavChunk::into_owned`]).
    pub fn into_owned(self) -> (r: WavFile<'static>)
        ensures
            r@.len() == self@.len(),
            forall|i: int|
                0 <= i < r@.len() ==> (#[trigger] r@[i]).id@ == self@[i].id@ && r@[i].data@ == self@[i].data@
                    && r@[i].data is Owned,
    {
        let ghost cs = self@;
        let mut rest = self.chunks;
        let mut reversed: Vec<WavChunk<'static>> = Vec::new();
        while rest.len() > 0
            invariant
                rest@.len() + reversed@.len() == cs.len(),
                rest@ == cs.take(rest@.len() as int),
                forall|j: int|
                    0 <= j < reversed@.len() ==> (#[trigger] reversed@[j]).id@ == cs[cs.len() - 1 - j].id@
                        && reversed@[j].data@ == cs[cs.len() - 1 - j].data@ && reversed@[j].data is Owned,
            decreases rest@.len(),
        {
            let c = rest.pop().unwrap();
            assert(rest@ =~= cs.take(rest@.len() as int));
            reversed.push(c.into_owned());
        }
        let mut chunks: Vec<WavChunk<'static>> = Vec::new();
        while reversed.len() > 0
            invariant
                reversed@.len() + chunks@.len() == cs.len(),
                forall|j: int|
                    0 <= j < reversed@.len() ==> (#[trigger] reversed@[j]).id@ == cs[cs.len() - 1 - j].id@
                        && reversed@[j].data@ == cs[cs.len() - 1 - j].data@ && reversed@[j].data is Owned,
                forall|j: int|
                    0 <= j < chunks@.len() ==> (#[trigger] chunks@[j]).id@ == cs[j].id@ && chunks@[j].data@
                        == cs[j].data@ && chunks@[j].data is Owned,
            decreases reversed@.len(),
        {
            let c = reversed.pop().unwrap();
            chunks.push(c);
        }
        WavFile { chunks }
    }

    /// The file as an owned one, or itself back when a chunk borrows its data.
    pub fn try_into_owned(self) -> (r: Result<WavFile<'static>, Self>)
        ensures
            (exists|i: int| 0 <= i < self@.len() && (#[trigger] self@[i]).data is Borrowed) ==> r
                == Err::<WavFile<'static>, Self>(self),
            (forall|i: int| 0 <= i < self@.len() ==> (#[trigger] self@[i]).data is Owned) ==> (r matches Ok(
                f,
            ) && f@.len() == self@.len() && forall|i: int|
                0 <= i < f@.len() ==> (#[trigger] f@[i]).id@ == self@[i].id@ && f@[i].data@ == self@[i].data@),
    {
        let mut has_borrow = false;
        for i in 0..self.chunks.len()
            invariant
                has_borrow == exists|j: int| 0 <= j < i && (#[trigger] self@[j]).data is Borrowed,
        {
            if !self.chunks[i].is_owned() {
                has_borrow = true;
            }
        }
        if has_borrow {
            Err(self)
        } else {
            Ok(self.into_owned())
        }
    }
}

proof fn lemma_chunks_size_prefix(cs: Seq<WavChunk>, i: int)
    requires
        0 <= i <= cs.len(),
    ensures
        chunks_size(cs.take(i)) <= chunks_size(cs),
    decreases cs.len() - i,
{
    if i < cs.len() {
        lemma_chunks_size_prefix(cs, i + 1);
        assert(cs.take(i + 1).drop_last() =~= cs.take(i));
    } else {
        assert(cs.take(i) =~= cs);
    }
}

/// The byte views of the channels.
pub open spec fn channel_bytes(channels: Seq<Vec<u8>>) -> Seq<Seq<u8>> {
    Seq::new(channels.len(), |c: int| channels[c]@)
}

/// The bytes of sample `t` of the channels `0..c`, channel after channel, each
/// sample `bps` bytes long.
pub open spec fn frame(chs: Seq<Seq<u8>>, bps: nat, t: nat, c: nat) -> Seq<u8>
    decreases c,
{
    if c == 0 {
        Seq::empty()
    } else {
        frame(chs, bps, t, (c - 1) as nat) + chs[c - 1].subrange((t * bps) as int, (t * bps + bps) as int)
    }
}

/// The samples `0..t` of all channels interleaved: frame after frame.
pub open spec fn interleaved(chs: Seq<Seq<u8>>, bps: nat, t: nat) -> Seq<u8>
    decreases t,
{
    if t == 0 {
        Seq::empty()
    } else {
        interleaved(chs, bps, (t - 1) as nat) + frame(chs, bps, (t - 1) as nat, chs.len())
    }
}

/// Channels that `flatten_channels` accepts: at least one, all of one length,
/// and that length a whole number of `bps`-byte samples.
pub open spec fn channels_aligned(chs: Seq<Seq<u8>>, bps: nat) -> bool {
    &&& chs.len() >= 1
    &&& bps >= 1
    &&& forall|c: int| 0 <= c < chs.len() ==> (#[trigger] chs[c]).len() == chs[0].len()
    &&& chs[0].len() % bps == 0
}

proof fn lemma_sample_in_range(t: nat, bps: nat, len: nat)
    requires
        bps >= 1,
        len % bps == 0,
        t < len / bps,
    ensures
        t * bps + bps <= len,
{
    assert(t * bps + bps <= len) by (nonlinear_arith)
        requires
            bps >= 1,
            len % bps == 0,
            t < len / bps,
    {
        assert(len == (len / bps) * bps);
        assert(t + 1 <= len / bps);
        assert((t + 1) * bps <= (len / bps) * bps);
    }
}

/// Interleaves the channels sample by sample, each sample `bytes_per_sample`
/// bytes long: the first sample of every channel, then the second, and so on.
pub fn flatten_channels(channels: &Vec<Vec<u8>>, bytes_per_sample: usize) -> (r: Vec<u8>)
    requires
        channels_aligned(channel_bytes(channels@), bytes_per_sample as nat),
    ensures
        r@ == interleaved(
            channel_bytes(channels@),
            bytes_per_sample as nat,
            channels@[0]@.len() / bytes_per_sample as nat,
        ),
{
    let ghost chs = channel_bytes(channels@);
    let bps = bytes_per_sample;
    let nch = channels.len();
    let len = channels[0].len();
    let num_samples = len / bps;
    assert(chs[0] == channels@[0]@);
    let mut buffer: Vec<u8> = Vec::new();
    for t in 0..num_samples
        invariant
            chs == channel_bytes(channels@),
            channels_aligned(chs, bps as nat),
            nch == chs.len(),
            len == chs[0].len(),
            num_samples == len / bps,
            buffer@ == interleaved(chs, bps as nat, t as nat),
    {
        proof {
            lemma_sample_in_range(t as nat, bps as nat, len as nat);
        }
        let ghost before = buffer@;
        for c in 0..nch
            invariant
                chs == channel_bytes(channels@),
                channels_aligned(chs, bps as nat),
                nch == chs.len(),
                len == chs[0].len(),
                t * bps + bps <= len,
                buffer@ == before + frame(chs, bps as nat, t as nat, c as nat),
        {
            let chan = &channels[c];
            assert(chs[c as int] == chan@);
            assert(chan@.len() == len);
            let ghost mid = buffer@;
            for b in 0..bps
                invariant
                    t * bps + bps <= len,
                    chan@.len() == len,
                    buffer@ == mid + chan@.subrange((t * bps) as int, (t * bps + b) as int),
            {
                buffer.push(chan[t * bps + b]);
                assert(buffer@ =~= mid + chan@.subrange((t * bps) as int, (t * bps + b + 1) as int));
            }
            assert(buffer@ =~= before + frame(chs, bps as nat, t as nat, (c + 1) as nat));
        }
        assert(buffer@ =~= interleaved(chs, bps as nat, (t + 1) as nat));
    }
    buffer
}

/// The bytes of a wave file holding a `fmt ` chunk for `meta` and a `data`
/// chunk holding `data`.
pub open spec fn dump_bytes(meta: WavFormatMeta, data: Seq<u8>) -> Seq<u8> {
    riff_id() + le32(4 + 24 + 8 + data.len()) + wave_id() + fmt_id() + le32(16) + format_chunk_data(meta)
        + data_id() + le32(data.len()) + data
}

/// The format that a dump of `channels` with the given sample type declares.
pub open spec fn dump_meta(
    sample_rate: u32,
    audio_format: WavFormat,
    bits_per_sample: u16,
    num_channels: nat,
) -> WavFormatMeta {
    WavFormatMeta {
        audio_format,
        bits_per_sample,
        num_channels: num_channels as u16,
        sample_rate,
    }
}

/// The data a dump of the channels holds: the one channel as it is, or the
/// channels interleaved.
pub open spec fn dump_data(chs: Seq<Seq<u8>>, bps: nat) -> Seq<u8> {
    if chs.len() == 1 {
        chs[0]
    } else {
        interleaved(chs, bps, chs[0].len() / bps)
    }
}

/// The bytes of a wave file holding the channels (each given as the
/// little-endian bytes of its samples) with the given sample format: a `fmt `
/// chunk and a `data` chunk with the samples interleaved.
#[verifier::rlimit(30)]
pub fn encode_dump(
    sample_rate: u32,
    audio_format: WavFormat,
    bits_per_sample: u16,
    channels: &Vec<Vec<u8>>,
) -> (r: Vec<u8>)
    requires
        channels@.len() <= 65535,
        channels_aligned(channel_bytes(channels@), (bits_per_sample / 8) as nat),
        format_fits(dump_meta(sample_rate, audio_format, bits_per_sample, channels@.len())),
        4 + 24 + 8 + channels@.len() * channels@[0]@.len() <= u32::MAX,
    ensures
        r@ == dump_bytes(
            dump_meta(sample_rate, audio_format, bits_per_sample, channels@.len()),
            dump_data(channel_bytes(channels@), (bits_per_sample / 8) as nat),
        ),
{
    let ghost chs = channel_bytes(channels@);
    let bps = (bits_per_sample / 8) as usize;
    let ghost meta_spec = dump_meta(sample_rate, audio_format, bits_per_sample, channels@.len());
    let ghost d = dump_data(chs, bps as nat);
    proof {
        assert(channels@[0]@ == chs[0]);
        lemma_dump_data_len(chs, bps as nat);
    }
    let data = if channels.len() == 1 {
        WavChunk::new_data(ChunkData::Borrowed(channels[0].as_slice()))
    } else {
        let bytes = flatten_channels(channels, bps);
        WavChunk::new_data(ChunkData::Owned(bytes))
    };
    let meta = WavFormatMeta {
        audio_format,
        bits_per_sample,
        num_channels: channels.len() as u16,
        sample_rate,
    };
    assert(meta == meta_spec);
    let fmt = WavChunk::new_format(&meta);
    let mut chunks: Vec<WavChunk> = Vec::new();
    chunks.push(fmt);
    chunks.push(data);
    let wav = WavFile::from_chunks(chunks);
    proof {
        assert(data.data@ == d);
        assert(wav@ =~= seq![fmt, data]);
        lemma_two_chunks(fmt, data);
    }
    let mut out: Vec<u8> = Vec::new();
    wav.write(&mut out);
    assert(out@ =~= dump_bytes(meta_spec, d));
    out
}

/// The data of a dump holds every sample of every channel.
proof fn lemma_dump_data_len(chs: Seq<Seq<u8>>, bps: nat)
    requires
        channels_aligned(chs, bps),
    ensures
        dump_data(chs, bps).len() == chs.len() * chs[0].len(),
{
    if chs.len() != 1 {
        let len = chs[0].len();
        let t = len / bps;
        assert(len == t * bps) by (nonlinear_arith)
            requires
                bps >= 1,
                len % bps == 0,
                t == len / bps,
        {
        }
        lemma_interleaved_len(chs, bps, t);
        assert(t * (chs.len() * bps) == chs.len() * len) by (nonlinear_arith)
            requires
                len == t * bps,
        {
        }
    }
}

/// A file of a `fmt ` chunk then a data chunk.
proof fn lemma_two_chunks(fmt: WavChunk, data: WavChunk)
    ensures
        chunks_size(seq![fmt, data]) == fmt.data@.len() + 8 + data.data@.len() + 8,
        chunks_bytes(seq![fmt, data]) == chunk_bytes(fmt) + chunk_bytes(data),
{
    let cs = seq![fmt, data];
    assert(cs.drop_last() =~= seq![fmt]);
    let one = seq![fmt];
    assert(one.drop_last() =~= Seq::<WavChunk>::empty());
    assert(one.last() == fmt);
    assert(chunks_bytes(one.drop_last()) == Seq::<u8>::empty());
    assert(chunks_size(one.drop_last()) == 0);
    assert(chunks_bytes(one) =~= chunk_bytes(fmt));
    assert(chunks_size(one) == fmt.data@.len() + 8);
    assert(cs.last() == data);
}

/// Interleaving `t` samples of every channel gives `t * bps` bytes per channel.
proof fn lemma_interleaved_len(chs: Seq<Seq<u8>>, bps: nat, t: nat)
    requires
        channels_aligned(chs, bps),
        t * bps <= chs[0].len(),
    ensures
        interleaved(chs, bps, t).len() == t * (chs.len() * bps),
    decreases t,
{
    if t > 0 {
        let p = (t - 1) as nat;
        let n = chs.len();
        assert(p * bps + bps == t * bps) by (nonlinear_arith)
            requires
                p + 1 == t,
        {
        }
        assert(p * bps <= t * bps);
        lemma_interleaved_len(chs, bps, p);
        lemma_frame_len(chs, bps, p, n);
        assert(interleaved(chs, bps, t) == interleaved(chs, bps, p) + frame(chs, bps, p, n));
        assert(p * (n * bps) + n * bps == t * (n * bps)) by (nonlinear_arith)
            requires
                p + 1 == t,
        {
        }
    } else {
        assert(t * (chs.len() * bps) == 0) by (nonlinear_arith)
            requires
                t == 0,
        {
        }
    }
}

proof fn lemma_frame_len(chs: Seq<Seq<u8>>, bps: nat, t: nat, c: nat)
    requires
        channels_aligned(chs, bps),
        t * bps + bps <= chs[0].len(),
        c <= chs.len(),
    ensures
        frame(chs, bps, t, c).len() == c * bps,
    decreases c,
{
    if c > 0 {
        let p = (c - 1) as nat;
        lemma_frame_len(chs, bps, t, p);
        assert(chs[p as int].len() == chs[0].len());
        let piece = chs[p as int].subrange((t * bps) as int, (t * bps + bps) as int);
        assert(piece.len() == bps);
        assert(frame(chs, bps, t, c) == frame(chs, bps, t, p) + piece);
        assert(p * bps + bps == c * bps) by (nonlinear_arith)
            requires
                p + 1 == c,
        {
        }
    } else {
        assert(c * bps == 0) by (nonlinear_arith)
            requires
                c == 0,
        {
        }
    }
}

/// Byte `c * bps + b` of a frame of the channels `0..m` is byte `b` of sample
/// `t` of channel `c`.
proof fn lemma_frame_byte(chs: Seq<Seq<u8>>, bps: nat, t: nat, m: nat, c: nat, b: nat)
    requires
        channels_aligned(chs, bps),
        t * bps + bps <= chs[0].len(),
        c < m <= chs.len(),
        b < bps,
    ensures
        frame(chs, bps, t, m)[(c * bps + b) as int] == chs[c as int][(t * bps + b) as int],
    decreases m,
{
    let p = (m - 1) as nat;
    lemma_frame_len(chs, bps, t, p);
    assert(chs[p as int].len() == chs[0].len());
    let piece = chs[p as int].subrange((t * bps) as int, (t * bps + bps) as int);
    assert(frame(chs, bps, t, m) == frame(chs, bps, t, p) + piece);
    if c < p {
        lemma_frame_byte(chs, bps, t, p, c, b);
        assert(c * bps + b < p * bps) by (nonlinear_arith)
            requires
                c < p,
                b < bps,
        {
            assert((c + 1) * bps <= p * bps);
        }
    } else {
        assert(c * bps + b - p * bps == b) by (nonlinear_arith)
            requires
                c == p,
        {
        }
    }
}

/// Interleaving puts every sample in its own slot: byte `b` of sample `t` of
/// channel `c` is byte `(t * n + c) * bps + b` of the result, where `n` is the
/// number of channels, and the result holds as many bytes as all the channels
/// together. So `flatten_channels` (and the `data` chunk of `encode_dump`)
/// rearranges the input bytes frame by frame, each channel in its own place.
pub proof fn lemma_interleaved_places_samples(chs: Seq<Seq<u8>>, bps: nat, t: nat, c: nat, b: nat)
    requires
        channels_aligned(chs, bps),
        t < chs[0].len() / bps,
        c < chs.len(),
        b < bps,
    ensures
        interleaved(chs, bps, chs[0].len() / bps).len() == chs.len() * chs[0].len(),
        interleaved(chs, bps, chs[0].len() / bps)[((t * chs.len() + c) * bps + b) as int] == chs[c as int][(t * bps
            + b) as int],
{
    let n = chs.len();
    let len = chs[0].len();
    let s = len / bps;
    assert(s * bps == len) by (nonlinear_arith)
        requires
            bps >= 1,
            len % bps == 0,
            s == len / bps,
    {
    }
    lemma_interleaved_len(chs, bps, s);
    assert(s * (n * bps) == n * len) by (nonlinear_arith)
        requires
            s * bps == len,
    {
    }
    lemma_interleaved_byte(chs, bps, s, t, c, b);
}

/// Byte `(t * n + c) * bps + b` of the first `m` frames is byte `b` of sample
/// `t` of channel `c`, for every sample `t` below `m`.
proof fn lemma_interleaved_byte(chs: Seq<Seq<u8>>, bps: nat, m: nat, t: nat, c: nat, b: nat)
    requires
        channels_aligned(chs, bps),
        m * bps <= chs[0].len(),
        t < m,
        c < chs.len(),
        b < bps,
    ensures
        interleaved(chs, bps, m)[((t * chs.len() + c) * bps + b) as int] == chs[c as int][(t * bps + b) as int],
    decreases m,
{
    let n = chs.len();
    let p = (m - 1) as nat;
    assert(p * bps + bps == m * bps) by (nonlinear_arith)
        requires
            p + 1 == m,
    {
    }
    lemma_interleaved_len(chs, bps, p);
    assert(interleaved(chs, bps, m) == interleaved(chs, bps, p) + frame(chs, bps, p, n));
    if t < p {
        lemma_interleaved_byte(chs, bps, p, t, c, b);
        assert(p * bps <= chs[0].len());
        assert((t * n + c) * bps + b < p * (n * bps)) by (nonlinear_arith)
            requires
                t < p,
                c < n,
                b < bps,
        {
            assert(t * n + c + 1 <= (t + 1) * n);
            assert((t * n + c) * bps + b < (t * n + c + 1) * bps);
            assert((t * n + c + 1) * bps <= (t + 1) * n * bps);
            assert((t + 1) * n * bps <= p * n * bps);
        }
    } else {
        lemma_frame_byte(chs, bps, p, n, c, b);
        lemma_frame_len(chs, bps, p, n);
        let idx = ((t * n + c) * bps + b) as int;
        let pre = interleaved(chs, bps, p);
        assert(idx - p * (n * bps) == c * bps + b) by (nonlinear_arith)
            requires
                t == p,
                idx == (t * n + c) * bps + b,
        {
        }
        assert(c * bps + b < n * bps) by (nonlinear_arith)
            requires
                c < n,
                b < bps,
        {
            assert((c + 1) * bps <= n * bps);
        }
        assert(interleaved(chs, bps, m)[idx] == frame(chs, bps, p, n)[idx - pre.len()]);
    }
}

/// Interleaving a single channel changes nothing: the first `t` samples of the
/// one channel are its first `t * bps` bytes.
proof fn lemma_interleaved_one_channel(c: Seq<u8>, bps: nat, t: nat)
    requires
        t * bps <= c.len(),
    ensures
        interleaved(seq![c], bps, t) == c.subrange(0, (t * bps) as int),
    decreases t,
{
    let chs = seq![c];
    if t == 0 {
        assert(t * bps == 0) by (nonlinear_arith)
            requires
                t == 0,
        {
        }
        assert(c.subrange(0, 0) =~= Seq::<u8>::empty());
    } else {
        let p = (t - 1) as nat;
        assert(p * bps + bps == t * bps) by (nonlinear_arith)
            requires
                p + 1 == t,
        {
        }
        lemma_interleaved_one_channel(c, bps, p);
        let piece = c.subrange((p * bps) as int, (p * bps + bps) as int);
        assert(frame(chs, bps, p, 0) == Seq::<u8>::empty());
        assert(frame(chs, bps, p, 1) == frame(chs, bps, p, 0) + piece);
        assert(interleaved(chs, bps, t) == interleaved(chs, bps, p) + frame(chs, bps, p, chs.len()));
        assert(c.subrange(0, (p * bps) as int) + piece =~= c.subrange(0, (t * bps) as int));
    }
}

/// A dump of a single channel holds the channel's bytes as they are, which is
/// what interleaving that one channel gives: the path that copies nothing and
/// the interleaving path agree.
pub proof fn lemma_mono_dump_is_interleaved(c: Seq<u8>, bps: nat)
    requires
        bps >= 1,
        c.len() % bps == 0,
    ensures
        dump_data(seq![c], bps) == interleaved(seq![c], bps, c.len() / bps),
{
    let t = c.len() / bps;
    assert(t * bps == c.len()) by (nonlinear_arith)
        requires
            bps >= 1,
            c.len() % bps == 0,
            t == c.len() / bps,
    {
    }
    lemma_interleaved_one_channel(c, bps, t);
    assert(c.subrange(0, c.len() as int) =~= c);
}

} // verus!
