use bingus::storage::{pack_brain_file, unpack_brain_file, BrainFileError};

#[test]
fn brain_file_round_trip() {
    let inputs: Vec<Vec<u8>> = vec![
        vec![],
        b"hello hello hello hello hello".to_vec(),
        (0..5000u32).map(|i| (i % 251) as u8).collect(),
    ];
    for data in inputs {
        let packed = pack_brain_file(&data).expect("compression failed");
        assert_ne!(packed, data);
        assert_eq!(unpack_brain_file(&packed), Ok(data));
    }
}

#[test]
fn brain_file_compresses_repetition() {
    let data = vec![7u8; 10_000];
    let packed = pack_brain_file(&data).unwrap();
    assert!(packed.len() < 100);
}

#[test]
fn brain_file_rejects_garbage() {
    assert_eq!(
        unpack_brain_file(b"this is not brotli at all, just some text"),
        Err(BrainFileError::NotCompressed)
    );
    let packed = pack_brain_file(b"some words to pack").unwrap();
    assert_eq!(
        unpack_brain_file(&packed[..packed.len() / 2]),
        Err(BrainFileError::NotCompressed)
    );
}
