//! Compressing, and cutting compressed streams into chunks.
use std::io::Write;

use secinfra::compression_util::{
    compress_bytes, ChunkBuffer, CompressedBytes, CompressedStreamStats, CompressionType,
    StreamCompressor, STREAM_CHUNK_SIZE,
};

#[test]
fn compressed_bytes_are_given_back() {
    let data: Vec<u8> = b"filing ".iter().cycle().take(5000).copied().collect();
    let frame = compress_bytes(CompressionType::Zstd, 3, &data).unwrap();
    assert_ne!(frame, data);
    assert!(frame.len() < data.len());
    assert_eq!(frame[..4], [0x28, 0xb5, 0x2f, 0xfd]);
    assert_eq!(zstd::bulk::decompress(&frame, data.len()).unwrap(), data);
    assert_eq!(frame, zstd::bulk::compress(&data, 3).unwrap());
}

#[test]
fn nothing_is_compressed_to_a_frame() {
    let frame = compress_bytes(CompressionType::Zstd, 0, b"").unwrap();
    assert!(!frame.is_empty());
    assert_eq!(zstd::bulk::decompress(&frame, 0).unwrap(), b"");
}

#[test]
fn whole_chunks_are_handed_on_first() {
    let mut chunks = ChunkBuffer::new(4);
    chunks.extend(b"abc");
    assert!(chunks.next_chunk().is_none());
    chunks.extend(b"defghij");
    assert_eq!(chunks.next_chunk().unwrap(), b"abcd");
    assert_eq!(chunks.next_chunk().unwrap(), b"efgh");
    assert!(chunks.next_chunk().is_none());
    assert_eq!(chunks.compressed_bytes(), 8);
    assert_eq!(chunks.last_chunk().unwrap(), b"ij");
    assert!(chunks.last_chunk().is_none());
    assert_eq!(chunks.compressed_bytes(), 10);
}

#[test]
fn chunks_keep_all_bytes() {
    let data: Vec<u8> = (0..1000u32).map(|k| (k % 251) as u8).collect();
    let mut chunks = ChunkBuffer::new(64);
    let mut out: Vec<Vec<u8>> = Vec::new();
    for part in data.chunks(150) {
        chunks.extend(part);
        assert!(chunks.fits_counter());
        out.extend(chunks.drain());
    }
    assert!(out.iter().all(|chunk| chunk.len() == 64));
    out.extend(chunks.last_chunk());
    assert_eq!(out.concat(), data);
    assert_eq!(out.len(), 16);
    assert_eq!(out[15].len(), 40);
    assert_eq!(chunks.compressed_bytes(), 1000);
}

#[test]
fn streams_are_cut_at_a_mebibyte() {
    assert_eq!(STREAM_CHUNK_SIZE, 1024 * 1024);
    let stats = CompressedStreamStats { input_bytes: 5, compressed_bytes: 3 };
    let all = CompressedBytes { bytes: vec![1, 2, 3], input_bytes: 5, compressed_bytes: 3 };
    assert_eq!(stats.input_bytes, all.input_bytes);
    assert_eq!(stats.compressed_bytes, all.bytes.len());
}

#[test]
fn whole_streams_decompress_to_their_data() {
    let data: Vec<u8> = (0..20000u32).map(|k| (k * k % 253) as u8).collect();
    let frame = compress_bytes(CompressionType::Zstd, 3, &data).unwrap();
    let mut chunks = ChunkBuffer::new(100);
    let mut out: Vec<Vec<u8>> = Vec::new();
    for (k, part) in frame.chunks(37).enumerate() {
        chunks.extend(part);
        if k % 3 == 0 {
            out.extend(chunks.drain());
        }
    }
    out.extend(chunks.drain());
    out.extend(chunks.last_chunk());
    let (last, earlier) = out.split_last().unwrap();
    assert!(earlier.iter().all(|chunk| chunk.len() == 100));
    assert!(!last.is_empty() && last.len() <= 100);
    assert_eq!(chunks.compressed_bytes(), frame.len());
    assert_eq!(zstd::bulk::decompress(&out.concat(), data.len()).unwrap(), data);
}

fn noise(len: u32) -> Vec<u8> {
    let mut state = 1u32;
    (0..len)
        .map(|_| {
            state = state.wrapping_mul(1664525).wrapping_add(1013904223);
            (state >> 24) as u8
        })
        .collect()
}

#[test]
fn compressed_streams_decompress_to_their_input() {
    let data = noise(700000);
    for (threads, size) in [(None, 1000), (Some(0), 65536), (Some(2), 100000)] {
        let mut stream = StreamCompressor::new(CompressionType::Zstd, 3, threads, size).unwrap();
        let mut out: Vec<Vec<u8>> = Vec::new();
        for part in data.chunks(90000) {
            assert!(stream.takes(part.len()));
            stream.write(part).unwrap();
            assert!(stream.fits_counter());
            while let Some(chunk) = stream.next_chunk() {
                out.push(chunk);
            }
        }
        assert!(out.iter().all(|chunk| chunk.len() == size));
        assert!(threads != None || out.len() > 100);
        let mut ended = stream.finish().unwrap();
        assert!(ended.fits_counter());
        while let Some(chunk) = ended.next_chunk() {
            out.push(chunk);
        }
        let (last, earlier) = out.split_last().unwrap();
        assert!(earlier.iter().all(|chunk| chunk.len() == size));
        assert!(!last.is_empty() && last.len() <= size);
        let stats = ended.stats();
        assert_eq!(stats.input_bytes, data.len());
        assert_eq!(stats.compressed_bytes, out.concat().len());
        assert_eq!(zstd::bulk::decompress(&out.concat(), data.len()).unwrap(), data);
    }
}

#[test]
fn whole_streams_are_given_at_once() {
    let data = b"filing ".repeat(9000);
    let mut stream = StreamCompressor::new(CompressionType::Zstd, 5, None, 16).unwrap();
    for part in data.chunks(10000) {
        stream.write(part).unwrap();
    }
    let compressed = stream.finish_bytes().unwrap();
    assert_eq!(compressed.input_bytes, data.len());
    assert_eq!(compressed.compressed_bytes, compressed.bytes.len());
    assert!(compressed.bytes.len() < data.len());
    assert_eq!(zstd::bulk::decompress(&compressed.bytes, data.len()).unwrap(), data);
}

#[test]
fn empty_streams_are_empty_frames() {
    let mut stream = StreamCompressor::new(CompressionType::Zstd, 0, None, 4).unwrap();
    assert!(stream.next_chunk().is_none());
    let mut ended = stream.finish().unwrap();
    let mut out = Vec::new();
    while let Some(chunk) = ended.next_chunk() {
        out.extend(chunk);
    }
    assert!(!out.is_empty());
    assert_eq!(ended.stats().compressed_bytes, out.len());
    assert_eq!(ended.stats().input_bytes, 0);
    assert_eq!(zstd::bulk::decompress(&out, 0).unwrap(), b"");
}

#[test]
fn streams_have_the_level_that_was_asked_for() {
    let words: Vec<u8> = noise(60000).iter().flat_map(|b| [b'a' + b % 7, b' ']).collect();
    let frame = |level: i32| {
        let mut stream = StreamCompressor::new(CompressionType::Zstd, level, None, 64).unwrap();
        stream.write(&words).unwrap();
        stream.finish_bytes().unwrap().bytes
    };
    let expected = |level: i32| {
        let mut encoder = zstd::stream::write::Encoder::new(Vec::new(), level).unwrap();
        encoder.write_all(&words).unwrap();
        encoder.finish().unwrap()
    };
    assert_eq!(frame(1), expected(1));
    assert_eq!(frame(9), expected(9));
    assert_ne!(frame(1), frame(9));
}
