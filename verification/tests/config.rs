//! Configuration validation: bad chunk-size bounds are rejected at
//! construction, before any bytes are processed.

use fastcdc_fs::chunker::ConfigurationError;
use fastcdc_fs::chunker::FastCDCWrapper;
use fastcdc_fs::ChunkWithData;

#[test]
fn test_zero_min_rejected() {
    assert_eq!(
        FastCDCWrapper::new_with_sizes(0, 16384, 32768).err(),
        Some(ConfigurationError)
    );
}

#[test]
fn test_min_above_avg_rejected() {
    assert!(FastCDCWrapper::new_with_sizes(32768, 16384, 65536).is_err());
}

#[test]
fn test_avg_above_max_rejected() {
    assert!(FastCDCWrapper::new_with_sizes(8192, 65536, 32768).is_err());
}

#[test]
fn test_min_equal_max_rejected() {
    // with min == max the detector would withhold its cut even on a
    // full window, so the stream could never make progress
    assert!(FastCDCWrapper::new_with_sizes(4096, 4096, 4096).is_err());
}

#[test]
fn test_out_of_range_parameters_rejected() {
    assert!(FastCDCWrapper::new_with_sizes(63, 256, 1024).is_err());
    assert!(FastCDCWrapper::new_with_sizes(64, 255, 1024).is_err());
    assert!(FastCDCWrapper::new_with_sizes(64, 256, 1023).is_err());
    assert!(FastCDCWrapper::new_with_sizes(64, 256, 2_000_000_000).is_err());
}

#[test]
fn test_valid_parameters_accepted() {
    assert!(FastCDCWrapper::new_with_sizes(8192, 16384, 32768).is_ok());
    assert!(FastCDCWrapper::new_with_sizes(64, 256, 1024).is_ok());
}

#[test]
fn test_new_uses_default_configuration() {
    // the default profile favors large, shareable chunks; an empty
    // stream under it still finishes cleanly with no chunks
    let mut wrapper = FastCDCWrapper::new();
    wrapper.finish();
    let mut chunks = Vec::<ChunkWithData>::new();
    wrapper.get_pending_chunks(&mut chunks);
    assert!(chunks.is_empty());
}
