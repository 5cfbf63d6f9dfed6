use taudio::wav::{
    encode_dump, flatten_channels, ChunkData, WavChunk, WavFile, WavFormat, WavFormatMeta,
};

fn mono_meta() -> WavFormatMeta {
    WavFormatMeta {
        audio_format: WavFormat::Pcm,
        num_channels: 1,
        sample_rate: 44100,
        bits_per_sample: 16,
    }
}

#[test]
fn format_chunk_bytes() {
    let chunk = WavChunk::new_format(&mono_meta());
    assert!(chunk.is_fmt());
    assert!(!chunk.is_data());
    assert!(chunk.is_owned());
    assert_eq!(&chunk.id, b"fmt ");
    assert_eq!(
        chunk.data.as_slice(),
        &[1, 0, 1, 0, 0x44, 0xac, 0, 0, 0x88, 0x58, 0x01, 0, 2, 0, 16, 0]
    );
}

#[test]
fn float_format_code() {
    assert_eq!(WavFormat::Pcm.code(), 1);
    assert_eq!(WavFormat::Float.code(), 3);
    let meta = WavFormatMeta {
        audio_format: WavFormat::Float,
        num_channels: 2,
        sample_rate: 8000,
        bits_per_sample: 32,
    };
    let chunk = WavChunk::new_format(&meta);
    assert_eq!(
        chunk.data.as_slice(),
        &[3, 0, 2, 0, 0x40, 0x1f, 0, 0, 0x00, 0xfa, 0, 0, 8, 0, 32, 0]
    );
}

#[test]
fn chunk_write_prefixes_id_and_size() {
    let bytes = [9u8, 8, 7];
    let chunk = WavChunk::new_data(ChunkData::Borrowed(&bytes));
    assert!(chunk.is_data());
    assert!(!chunk.is_owned());
    let mut out = vec![0xff];
    chunk.write(&mut out);
    assert_eq!(out, vec![0xff, b'd', b'a', b't', b'a', 3, 0, 0, 0, 9, 8, 7]);
}

#[test]
fn chunk_ownership() {
    let bytes = [1u8, 2];
    let borrowed = WavChunk::new_data(ChunkData::Borrowed(&bytes));
    let back = borrowed.try_into_owned().unwrap_err();
    let owned = back.into_owned();
    assert!(owned.is_owned());
    assert_eq!(owned.data.as_slice(), &[1, 2]);
    let again = owned.try_into_owned().unwrap();
    assert_eq!(again.data.as_slice(), &[1, 2]);
}

#[test]
fn file_write_wraps_the_chunks() {
    let file = WavFile::from_chunks(vec![
        WavChunk::new_format(&mono_meta()),
        WavChunk::new_data(ChunkData::Owned(vec![1, 0, 2, 0])),
    ]);
    let mut out = vec![];
    file.write(&mut out);
    assert_eq!(out.len(), 12 + 24 + 12);
    assert_eq!(&out[0..4], b"RIFF");
    assert_eq!(&out[4..8], &[40, 0, 0, 0]);
    assert_eq!(&out[8..12], b"WAVE");
    assert_eq!(&out[12..16], b"fmt ");
    assert_eq!(&out[16..20], &[16, 0, 0, 0]);
    assert_eq!(&out[36..40], b"data");
    assert_eq!(&out[40..44], &[4, 0, 0, 0]);
    assert_eq!(&out[44..48], &[1, 0, 2, 0]);
}

#[test]
fn file_chunk_lookup() {
    let mut file = WavFile::from_chunks(vec![]);
    assert!(file.get_fmt_chunk().is_none());
    file.push_chunk(WavChunk::new_data(ChunkData::Owned(vec![1])));
    file.push_chunk(WavChunk::new_format(&mono_meta()));
    file.push_chunk(WavChunk::new_data(ChunkData::Owned(vec![2])));
    assert_eq!(file.as_chunks().len(), 3);
    assert_eq!(file.get_data_chunk().unwrap().data.as_slice(), &[1]);
    assert!(file.get_fmt_chunk().unwrap().is_fmt());
    assert_eq!(file.filter_chunks_by_id(*b"data").len(), 2);
    assert_eq!(file.get_chunk_by_id(*b"junk").map(|c| c.id), None);
    let ids: Vec<[u8; 4]> = file.iter_chunks().into_iter().map(|(id, _)| id).collect();
    assert_eq!(ids, vec![*b"data", *b"fmt ", *b"data"]);
    let removed = file.remove_chunk(1);
    assert!(removed.is_fmt());
    let last = file.pop_chunk().unwrap();
    assert_eq!(last.data.as_slice(), &[2]);
    let first = file.swap_remove_chunk(0);
    assert_eq!(first.data.as_slice(), &[1]);
    assert!(file.pop_chunk().is_none());
}

#[test]
fn file_ownership() {
    let bytes = [5u8];
    let file = WavFile::from_chunks(vec![WavChunk::new_data(ChunkData::Borrowed(&bytes))]);
    let file = file.try_into_owned().unwrap_err();
    let owned = file.into_owned();
    let again = owned.try_into_owned().unwrap();
    let chunks = again.into_chunks();
    assert!(chunks[0].is_owned());
    assert_eq!(chunks[0].data.as_slice(), &[5]);
}

#[test]
fn flatten_interleaves_samples() {
    let left = vec![1u8, 2, 3, 4];
    let right = vec![5u8, 6, 7, 8];
    assert_eq!(flatten_channels(&vec![left.clone(), right.clone()], 2), vec![1, 2, 5, 6, 3, 4, 7, 8]);
    assert_eq!(flatten_channels(&vec![left.clone()], 1), left);
}

#[test]
fn dump_of_one_channel_keeps_its_bytes() {
    let samples: Vec<u8> = vec![1, 0, 0xff, 0x7f];
    let bytes = encode_dump(44100, WavFormat::Pcm, 16, &vec![samples.clone()]);
    assert_eq!(bytes.len(), 44 + 4);
    assert_eq!(&bytes[4..8], &[40, 0, 0, 0]);
    assert_eq!(&bytes[20..36], &[1, 0, 1, 0, 0x44, 0xac, 0, 0, 0x88, 0x58, 0x01, 0, 2, 0, 16, 0]);
    assert_eq!(&bytes[40..44], &[4, 0, 0, 0]);
    assert_eq!(&bytes[44..], samples.as_slice());
}

#[test]
fn dump_of_two_channels_interleaves() {
    let left: Vec<u8> = vec![1, 2];
    let right: Vec<u8> = vec![3, 4];
    let bytes = encode_dump(8000, WavFormat::Pcm, 8, &vec![left, right]);
    assert_eq!(&bytes[22..24], &[2, 0]);
    assert_eq!(&bytes[44..], &[1, 3, 2, 4]);
}

#[test]
fn file_chunks_change_in_place() {
    let mut file = WavFile::from_chunks(vec![
        WavChunk::new_data(ChunkData::Owned(vec![1])),
        WavChunk::new_format(&mono_meta()),
        WavChunk::new_data(ChunkData::Owned(vec![2])),
    ]);
    file.get_data_chunk_mut().unwrap().data = ChunkData::Owned(vec![7, 7]);
    assert_eq!(file.as_chunks()[0].data.as_slice(), &[7, 7]);
    assert_eq!(file.as_chunks()[2].data.as_slice(), &[2]);
    file.get_fmt_chunk_mut().unwrap().id = *b"junk";
    assert!(file.get_fmt_chunk().is_none());
    assert!(file.get_chunk_by_id_mut(*b"abcd").is_none());
    file.as_chunks_mut()[2].id = *b"last";
    assert_eq!(file.get_chunk_by_id(*b"last").unwrap().data.as_slice(), &[2]);
    assert_eq!(file.as_chunks().len(), 3);
}
