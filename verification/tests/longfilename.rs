use fat32fs::long_name_split;

#[test]
fn test_long_name_u16() {
    let name = String::from("这真的是一个文件名很长的文件, 需要切开wakuwaku.txt");
    let utf16 = name.encode_utf16();
    let first: Vec<u16> = utf16.collect();
    let array: Vec<&[u16]> = first.as_slice().chunks(13).collect();
    let name = String::from_utf16_lossy(array[2]);
    println!("name: {:#X?}", name);
}

#[test]
fn test_long_name_split() {
    let name_vec: Vec<[u16; 13]> =
        long_name_split("这是一个文件名很长的文件, 需要切开wakuwaku.txt")
            .into_iter()
            .rev()
            .collect();
    println!("name_vec: {:#?}", String::from_utf16_lossy(&name_vec[0]))
}

#[test]
fn split_pads_partial_chunk() {
    let chunks = long_name_split("hello-world.log");
    assert_eq!(chunks.len(), 2);
    let expect0: Vec<u16> = "hello-world.l".encode_utf16().collect();
    assert_eq!(&chunks[0][..], &expect0[..]);
    assert_eq!(chunks[1][0], 'o' as u16);
    assert_eq!(chunks[1][1], 'g' as u16);
    assert_eq!(chunks[1][2], 0x0000);
    for k in 3..13 {
        assert_eq!(chunks[1][k], 0xFFFF);
    }
}

#[test]
fn split_exact_chunk_has_no_padding() {
    let chunks = long_name_split("exactly13char");
    assert_eq!(chunks.len(), 1);
    let expect: Vec<u16> = "exactly13char".encode_utf16().collect();
    assert_eq!(&chunks[0][..], &expect[..]);
}
