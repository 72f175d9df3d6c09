//! The pending-chunk queue on its own: order is kept, take-all moves
//! everything out in one step and leaves the queue empty.

use fastcdc_fs::queue::PendingChunks;
use fastcdc_fs::ChunkWithData;

fn chunk(offset: usize, bytes: &[u8]) -> ChunkWithData {
    ChunkWithData {
        offset,
        length: bytes.len(),
        data: bytes.to_vec(),
    }
}

#[test]
fn test_queue_take_all_moves_in_order() {
    let mut q = PendingChunks::new();
    assert_eq!(q.len(), 0);
    q.push(chunk(0, &[1, 2, 3]));
    q.push(chunk(3, &[4, 5]));
    assert_eq!(q.len(), 2);

    let mut out = Vec::new();
    q.take_all(&mut out);
    assert_eq!(q.len(), 0);
    assert_eq!(out.len(), 2);
    assert_eq!(out[0].offset, 0);
    assert_eq!(out[0].data, vec![1, 2, 3]);
    assert_eq!(out[1].offset, 3);
    assert_eq!(out[1].data, vec![4, 5]);

    // a second take-all replaces the destination with nothing
    q.take_all(&mut out);
    assert!(out.is_empty());
}
