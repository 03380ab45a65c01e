use deflate_utils::zip::{
    entry_contents, file_data, get_file_data_idxes, read_local_header, zip0_bytes, CentralDirectoryRecord,
    EndCentralDirectoryRecord, LocalFileRecord,
};

#[test]
fn end_record_bytes() {
    let r = EndCentralDirectoryRecord::create_central_directory_record();
    assert_eq!(
        r.to_bytes(),
        vec![0x50, 0x4b, 0x05, 0x06, 0, 0, 0, 0, 1, 0, 1, 0, 0, 0, 0, 0, 0, 0, 0, 0, 0, 0]
    );
}

#[test]
fn central_record_bytes() {
    let r = CentralDirectoryRecord::create_central_directory_record("ab", 0x01020304);
    let mut expected = vec![0x50, 0x4b, 0x01, 0x02, 30, 65, 20, 0, 0, 0, 0, 0, 0, 0, 0, 0];
    expected.extend([0xef, 0xbe, 0xad, 0xde]);
    expected.extend([4, 3, 2, 1, 4, 3, 2, 1]);
    expected.extend([2, 0, 0, 0, 0, 0, 0, 0, 1, 0, 1, 0, 0, 0, 0, 0, 0, 0]);
    expected.extend(b"ab");
    assert_eq!(r.to_bytes(), expected);
}

#[test]
fn local_record_bytes() {
    let r = LocalFileRecord::create_local_file_record("f.txt", "hi");
    let mut expected = vec![0x50, 0x4b, 0x03, 0x04, 0x20, 0x00, 0, 0, 0x08, 0x00, 0, 0, 0, 0];
    expected.extend([0xde, 0xad, 0xbe, 0xef]);
    expected.extend([2, 0, 0, 0, 2, 0, 0, 0, 5, 0, 0, 0]);
    expected.extend(b"f.txt");
    expected.extend(b"hi");
    assert_eq!(r.to_bytes(), expected);
}

#[test]
fn zip_reads_back() {
    let bytes = zip0_bytes("f.txt", "hi");
    assert_eq!(bytes.len(), 37 + 51 + 22);
    let header = read_local_header(&bytes).unwrap();
    assert_eq!(header.compression_method, 8);
    assert_eq!(header.file_size, 2);
    assert_eq!(header.file_name_length, 5);
    assert_eq!(header.extra_field_length, 0);
    assert_eq!(header.file_name, b"f.txt".to_vec());
    assert_eq!(get_file_data_idxes(5, 2), (35, 37));
    assert_eq!(file_data(&bytes, 5, 2), Some(b"hi".to_vec()));
}

#[test]
fn short_archives_are_refused() {
    assert!(read_local_header(&[0u8; 29]).is_none());
    let mut b = vec![0u8; 30];
    b[26] = 4;
    assert!(read_local_header(&b).is_none());
    assert_eq!(file_data(&b, 0, 1), None);
}

fn archive(method: u8, data: &[u8]) -> Vec<u8> {
    let mut b = vec![0u8; 30];
    b[8] = method;
    let n = data.len() as u32;
    b[18..22].copy_from_slice(&n.to_le_bytes());
    b[26] = 1;
    b.push(b'f');
    b.extend_from_slice(data);
    b
}

#[test]
fn entry_contents_by_method() {
    let data = b"hello hello hello world".to_vec();
    let stream = deflate_utils::huffman::compress(data.clone());
    assert_eq!(entry_contents(&archive(8, &stream)), Some(data.clone()));
    assert_eq!(entry_contents(&archive(0, &data)), Some(data.clone()));
    assert_eq!(entry_contents(&archive(12, &data)), None);
    // The archive of `zip0_bytes` is labelled deflated but holds the bytes as they are.
    let mut z = zip0_bytes("f.txt", "hi");
    assert_eq!(entry_contents(&z), None);
    z[8] = 0;
    assert_eq!(entry_contents(&z), Some(b"hi".to_vec()));
    let mut short = archive(0, &data);
    short.truncate(40);
    assert_eq!(entry_contents(&short), None);
}
