use std::io::Read;
use std::io::Write;
use std::sync::Arc;
use voxel_server::chunk::ChunkCoord;
use voxel_server::storage::{decode_chunk, encode_chunk, SavedChunk, Storage};
use voxel_server::terrain::{ColumnHeights, TerrainGenerator};
use voxel_server::voxel::{UVec3, Voxel, VoxelBuffer};

fn at(x: i32, y: i32, z: i32) -> ChunkCoord {
    ChunkCoord::new(x, y, z)
}

fn sample() -> VoxelBuffer {
    let mut heights = Vec::new();
    for i in 0..1024 {
        heights.push((i * 31) % 40);
    }
    TerrainGenerator::new(3).generate(at(0, 0, 0), &ColumnHeights::from_vec(heights).unwrap())
}

#[test]
fn file_name_holds_the_three_components() {
    assert_eq!(Storage::chunk_file_name(at(0, 0, 0)), "chunks/0_0_0.dat");
    assert_eq!(Storage::chunk_file_name(at(1, -2, 30)), "chunks/1_-2_30.dat");
    assert_eq!(
        Storage::chunk_file_name(at(i32::MAX, i32::MIN, -1)),
        "chunks/2147483647_-2147483648_-1.dat"
    );
}

#[test]
fn encoded_chunk_is_extent_count_and_tags() {
    let mut buffer = VoxelBuffer::new(UVec3::new(2, 1, 1));
    buffer.set(UVec3::new(1, 0, 0), Voxel(200));
    assert_eq!(encode_chunk(&buffer), vec![2, 1, 1, 2, 0, 0xc8, 0x01]);
    assert_eq!(
        encode_chunk(&buffer),
        postcard::to_allocvec(&((2u32, 1u32, 1u32), vec![0u16, 200])).unwrap()
    );
    assert_eq!(decode_chunk(&vec![2, 1, 1, 2, 0, 0xc8, 0x01]), Some(buffer));
}

#[test]
fn decode_refuses_what_is_no_chunk() {
    assert_eq!(decode_chunk(&Vec::new()), None);
    assert_eq!(decode_chunk(&vec![1, 1, 1, 3, 0, 0]), None);
    assert_eq!(decode_chunk(&vec![1, 1, 1, 1, 0xff, 0xff, 0x04]), None);
    assert_eq!(decode_chunk(&vec![1, 1]), None);
}

#[test]
fn saved_chunk_is_read_back() {
    let buffer = sample();
    let mut storage = Storage::new();
    storage.save_chunk(at(1, 2, 3), &buffer);
    let files = storage.take_saves();
    assert_eq!(files.len(), 1);
    assert_eq!(files[0].pos, at(1, 2, 3));
    assert!(storage.take_saves().is_empty());
    let back = storage.get_chunk(&Some(files[0].bytes.clone())).unwrap();
    assert_eq!(*back, buffer);
}

#[test]
fn saved_file_is_a_zlib_stream_of_the_encoded_chunk() {
    let buffer = sample();
    let raw = encode_chunk(&buffer);
    let mut storage = Storage::new();
    storage.save_chunk(at(0, 0, 0), &buffer);
    let file = storage.take_saves().remove(0).bytes;
    assert_ne!(file, raw);
    assert!(file.len() < raw.len());
    let mut inflated = Vec::new();
    flate2::read::ZlibDecoder::new(&file[..]).read_to_end(&mut inflated).unwrap();
    assert_eq!(inflated, raw);
}

#[test]
fn file_written_elsewhere_is_read() {
    let buffer = sample();
    let mut encoder =
        flate2::write::ZlibEncoder::new(Vec::new(), flate2::Compression::best());
    encoder.write_all(&encode_chunk(&buffer)).unwrap();
    let file = encoder.finish().unwrap();
    let storage = Storage::new();
    assert_eq!(*storage.get_chunk(&Some(file)).unwrap(), buffer);
}

#[test]
fn missing_or_broken_file_is_no_chunk() {
    let storage = Storage::new();
    assert!(storage.get_chunk(&None).is_none());
    assert!(storage.get_chunk(&Some(Vec::new())).is_none());
    assert!(storage.get_chunk(&Some(vec![1, 2, 3, 4, 5])).is_none());
    assert!(storage.get_chunk(&Some(encode_chunk(&sample()))).is_none());
    let mut encoder =
        flate2::write::ZlibEncoder::new(Vec::new(), flate2::Compression::fast());
    encoder.write_all(&[1, 1]).unwrap();
    let not_a_chunk = encoder.finish().unwrap();
    assert!(storage.get_chunk(&Some(not_a_chunk)).is_none());
    let mut storage = Storage::new();
    storage.save_chunk(at(0, 0, 0), &sample());
    let mut cut = storage.take_saves().remove(0).bytes;
    cut.truncate(cut.len() / 2);
    assert!(storage.get_chunk(&Some(cut)).is_none());
}

#[test]
fn several_files_are_read_one_by_one() {
    let buffer = sample();
    let mut storage = Storage::new();
    storage.save_chunk(at(0, 0, 0), &buffer);
    let file = storage.take_saves().remove(0).bytes;
    let read = storage.get_chunks(&vec![None, Some(file), Some(vec![0])]);
    assert_eq!(read.len(), 3);
    assert!(read[0].is_none());
    assert_eq!(**read[1].as_ref().unwrap(), buffer);
    assert!(read[2].is_none());
}

#[test]
fn enqueue_queues_what_there_is() {
    let mut storage = Storage::new();
    storage.enqueue(at(1, 1, 1), None);
    storage.enqueue(at(2, 2, 2), Some(vec![7, 8]));
    storage.enqueue(at(3, 3, 3), Some(Vec::new()));
    assert_eq!(
        storage.take_saves(),
        vec![
            SavedChunk { pos: at(2, 2, 2), bytes: vec![7, 8] },
            SavedChunk { pos: at(3, 3, 3), bytes: Vec::new() },
        ]
    );
}

#[test]
fn unpack_decodes_what_was_decompressed() {
    assert!(Storage::unpack(None).is_none());
    assert!(Storage::unpack(Some(vec![9])).is_none());
    let buffer = sample();
    let shared: Arc<VoxelBuffer> = Storage::unpack(Some(encode_chunk(&buffer))).unwrap();
    assert_eq!(*shared, buffer);
}
