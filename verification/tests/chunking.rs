//! Streaming chunking behaves exactly like a whole-buffer run of the
//! boundary detector, however the input is partitioned across writes.

use fastcdc::Chunk;
use fastcdc::FastCDC;
use fastcdc_fs::chunker::FastCDCWrapper;
use fastcdc_fs::ChunkWithData;

/// A fixed pseudo-random byte buffer, the same on every run.
fn reference_data(n: usize) -> Vec<u8> {
    let mut state: u32 = 0x9E37_79B9;
    let mut v = Vec::with_capacity(n);
    for _ in 0..n {
        state ^= state << 13;
        state ^= state >> 17;
        state ^= state << 5;
        v.push((state >> 24) as u8);
    }
    v
}

fn split_buf(mut buf: Vec<u8>, chunk_size: usize) -> Vec<Vec<u8>> {
    let mut acc = Vec::new();
    while !buf.is_empty() {
        let take = chunk_size.min(buf.len());
        acc.push(buf.drain(0..take).collect());
    }
    acc
}

#[test]
fn test_single_write_ok() {
    let data = reference_data(128 * 1024);
    let min = 8192;
    let avg = 16384;
    let max = 32768;
    let fcdc_results: Vec<Chunk> = FastCDC::new(&data, min, avg, max).collect();
    let mut wrapper = FastCDCWrapper::new_with_sizes(min, avg, max).unwrap();

    let mut chunks = Vec::<ChunkWithData>::new();
    wrapper.append(&data);
    wrapper.finish();
    wrapper.get_pending_chunks(&mut chunks);

    for (i, (fcdc, ours)) in fcdc_results.iter().zip(&chunks).enumerate() {
        assert_eq!(fcdc.offset, ours.offset, "offset {}", i);
        assert_eq!(fcdc.length, ours.length, "length {}", i);
    }
    assert_eq!(fcdc_results.len(), chunks.len(), "number of chunks");
}

fn multiple_writes_size(write_size: usize) {
    let data = reference_data(128 * 1024);
    let min = 8192;
    let avg = 16384;
    let max = 32768;
    let fcdc_results: Vec<Chunk> = FastCDC::new(&data, min, avg, max).collect();
    let mut wrapper = FastCDCWrapper::new_with_sizes(min, avg, max).unwrap();

    let mut chunks = Vec::<ChunkWithData>::new();
    for write in split_buf(data, write_size) {
        wrapper.append(&write);
    }

    wrapper.finish();
    wrapper.get_pending_chunks(&mut chunks);

    for (i, (fcdc, ours)) in fcdc_results.iter().zip(&chunks).enumerate() {
        assert_eq!(fcdc.offset, ours.offset, "offset {}", i);
        assert_eq!(fcdc.length, ours.length, "length {}", i);
    }
    assert_eq!(fcdc_results.len(), chunks.len(), "number of chunks");
}

#[test]
fn test_multiple_writes_ok() {
    // writes smaller than the min chunk size
    multiple_writes_size(4096);

    // in between chunk sizes
    multiple_writes_size(8192);

    // bigger than the max chunk size
    multiple_writes_size(40960);

    // giant write (aka, are any of these buffers stack allocated :)
    multiple_writes_size(100 * 1024 * 1024 * 1024);
}

#[test]
fn test_chunk_data_matches_stream() {
    let data = reference_data(96 * 1024);
    let mut wrapper = FastCDCWrapper::new_with_sizes(8192, 16384, 32768).unwrap();
    for write in split_buf(data.clone(), 5000) {
        wrapper.append(&write);
    }
    wrapper.finish();
    let mut chunks = Vec::<ChunkWithData>::new();
    wrapper.get_pending_chunks(&mut chunks);
    assert!(!chunks.is_empty());
    for c in &chunks {
        assert_eq!(c.length, c.data.len());
        assert_eq!(&data[c.offset..c.offset + c.length], &c.data[..]);
    }
}

#[test]
fn test_coverage_sums_to_total() {
    let total = 100 * 1024;
    let data = reference_data(total);
    let mut wrapper = FastCDCWrapper::new_with_sizes(8192, 16384, 32768).unwrap();
    for write in split_buf(data, 3000) {
        wrapper.append(&write);
    }
    wrapper.finish();
    let mut chunks = Vec::<ChunkWithData>::new();
    wrapper.get_pending_chunks(&mut chunks);
    let sum: usize = chunks.iter().map(|c| c.length).sum();
    assert_eq!(sum, total);
}

#[test]
fn test_empty_input_yields_no_chunks() {
    let mut wrapper = FastCDCWrapper::new_with_sizes(8192, 16384, 32768).unwrap();
    wrapper.finish();
    let mut chunks = Vec::<ChunkWithData>::new();
    wrapper.get_pending_chunks(&mut chunks);
    assert!(chunks.is_empty());
}

#[test]
fn test_contiguity() {
    let data = reference_data(128 * 1024);
    let mut wrapper = FastCDCWrapper::new_with_sizes(8192, 16384, 32768).unwrap();
    for write in split_buf(data, 4096) {
        wrapper.append(&write);
    }
    wrapper.finish();
    let mut chunks = Vec::<ChunkWithData>::new();
    wrapper.get_pending_chunks(&mut chunks);
    assert!(!chunks.is_empty());
    assert_eq!(chunks[0].offset, 0);
    for i in 0..chunks.len() - 1 {
        assert_eq!(chunks[i].offset + chunks[i].length, chunks[i + 1].offset);
    }
}

#[test]
fn test_size_bounds() {
    let min = 8192;
    let avg = 16384;
    let max = 32768;
    let data = reference_data(200 * 1024);
    let mut wrapper = FastCDCWrapper::new_with_sizes(min, avg, max).unwrap();
    for write in split_buf(data, 7777) {
        wrapper.append(&write);
    }
    wrapper.finish();
    let mut chunks = Vec::<ChunkWithData>::new();
    wrapper.get_pending_chunks(&mut chunks);
    assert!(!chunks.is_empty());
    for (i, c) in chunks.iter().enumerate() {
        assert!(c.length <= max, "chunk {} over max", i);
        if i < chunks.len() - 1 {
            assert!(c.length >= min, "chunk {} under min", i);
        }
    }
}

#[test]
fn test_bounded_window_large_single_write() {
    // a single write far larger than the window: the engine only ever
    // buffers `max` bytes, looping render passes as the window refills
    let min = 2048;
    let avg = 4096;
    let max = 8192;
    let total = 1024 * 1024;
    let data = reference_data(total);
    let reference: Vec<Chunk> = FastCDC::new(&data, min, avg, max).collect();
    let mut wrapper = FastCDCWrapper::new_with_sizes(min, avg, max).unwrap();
    wrapper.append(&data);
    wrapper.finish();
    let mut chunks = Vec::<ChunkWithData>::new();
    wrapper.get_pending_chunks(&mut chunks);
    assert_eq!(reference.len(), chunks.len());
    for (r, c) in reference.iter().zip(&chunks) {
        assert_eq!(r.offset, c.offset);
        assert_eq!(r.length, c.length);
    }
    let sum: usize = chunks.iter().map(|c| c.length).sum();
    assert_eq!(sum, total);
}

#[test]
fn test_all_zero_input_forces_max_cuts() {
    // pathological data with no content boundary: every chunk is
    // forced closed at exactly `max` bytes
    let data = vec![0u8; 10240];
    let mut wrapper = FastCDCWrapper::new_with_sizes(64, 256, 1024).unwrap();
    wrapper.append(&data);
    wrapper.finish();
    let mut chunks = Vec::<ChunkWithData>::new();
    wrapper.get_pending_chunks(&mut chunks);
    assert_eq!(chunks.len(), 10);
    for (i, c) in chunks.iter().enumerate() {
        assert_eq!(c.offset, i * 1024);
        assert_eq!(c.length, 1024);
    }
}

#[test]
fn test_write_at_capacity_renders_immediately() {
    // a write landing exactly at window capacity triggers a render
    // pass at once: chunks are pending before `finish` is called
    let max = 1024;
    let data = vec![0u8; max];
    let mut wrapper = FastCDCWrapper::new_with_sizes(64, 256, max).unwrap();
    wrapper.append(&data);
    let mut chunks = Vec::<ChunkWithData>::new();
    wrapper.get_pending_chunks(&mut chunks);
    assert_eq!(chunks.len(), 1);
    assert_eq!(chunks[0].offset, 0);
    assert_eq!(chunks[0].length, max);
}

#[test]
fn test_drain_twice_second_empty() {
    let data = reference_data(64 * 1024);
    let mut wrapper = FastCDCWrapper::new_with_sizes(8192, 16384, 32768).unwrap();
    wrapper.append(&data);
    wrapper.finish();
    let mut first = Vec::<ChunkWithData>::new();
    wrapper.get_pending_chunks(&mut first);
    assert!(!first.is_empty());
    let mut second = Vec::<ChunkWithData>::new();
    wrapper.get_pending_chunks(&mut second);
    assert!(second.is_empty());
}

#[test]
fn test_drain_before_any_write_is_empty() {
    let mut wrapper = FastCDCWrapper::new_with_sizes(8192, 16384, 32768).unwrap();
    let mut chunks = Vec::<ChunkWithData>::new();
    wrapper.get_pending_chunks(&mut chunks);
    assert!(chunks.is_empty());
    wrapper.get_pending_chunks(&mut chunks);
    assert!(chunks.is_empty());
}
