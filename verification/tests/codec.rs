use replibyte::codec::{compress, decompress, digest_of, encipher, mix, open, seal};

#[test]
fn compress_makes_maximal_runs() {
    assert_eq!(compress(b"aaabcc"), vec![3, b'a', 1, b'b', 2, b'c']);
    assert_eq!(compress(b""), Vec::<u8>::new());
    assert_eq!(compress(b"z"), vec![1, b'z']);
}

#[test]
fn compress_splits_runs_longer_than_255() {
    let raw = vec![7u8; 600];
    assert_eq!(compress(&raw), vec![255, 7, 255, 7, 90, 7]);
    assert_eq!(decompress(&compress(&raw)), Some(raw));
}

#[test]
fn decompress_gives_the_raw_bytes_back() {
    let raw: Vec<u8> = (0..2000u32).map(|i| (i / 7 % 5) as u8).collect();
    let packed = compress(&raw);
    assert!(packed.len() < raw.len());
    assert_eq!(decompress(&packed), Some(raw));
}

#[test]
fn decompress_rejects_odd_length_and_zero_counts() {
    assert_eq!(decompress(&[3, b'a', 1]), None);
    assert_eq!(decompress(&[3, b'a', 0, b'b']), None);
    assert_eq!(decompress(&[]), Some(Vec::new()));
}

#[test]
fn mix_has_its_known_values() {
    assert_eq!(mix(0), 0);
    assert_eq!(mix(1), 6238072747940578789);
    assert_eq!(mix(0xdead_beef), 5622224078331092714);
}

#[test]
fn digest_has_its_known_values() {
    assert_eq!(digest_of(b""), 14695981039346656037);
    assert_eq!(digest_of(b"abc"), 8883173668947915599);
}

#[test]
fn encipher_has_its_known_output() {
    assert_eq!(
        encipher(b"hello world!", b"secret"),
        vec![126, 128, 58, 228, 65, 198, 105, 12, 107, 190, 116, 156]
    );
    assert_eq!(encipher(&[0u8; 10], b""), vec![155, 232, 181, 169, 233, 21, 42, 245, 36, 238]);
}

#[test]
fn encipher_twice_gives_the_data_back() {
    let data: Vec<u8> = (0..300u32).map(|i| (i * 31 % 251) as u8).collect();
    let once = encipher(&data, b"k1");
    assert_ne!(once, data);
    assert_eq!(encipher(&once, b"k1"), data);
    assert_ne!(encipher(&once, b"k2"), data);
}

#[test]
fn seal_then_open_gives_the_raw_chunk_back() {
    let raw = b"aaaaaaaaaabbbbbbbbbbcccccccccc".to_vec();
    for compression in [false, true] {
        for key in [None, Some(b"secret".to_vec())] {
            let sealed = seal(&raw, compression, &key);
            assert_eq!(open(&sealed, compression, &key), Some(raw.clone()));
        }
    }
}

#[test]
fn seal_without_settings_is_the_identity() {
    assert_eq!(seal(b"abc", false, &None), b"abc".to_vec());
    assert_eq!(seal(b"aab", true, &None), vec![2, b'a', 1, b'b']);
    assert_eq!(seal(b"abc", false, &Some(b"k".to_vec())), encipher(b"abc", b"k"));
}

#[test]
fn open_with_compression_rejects_what_does_not_expand() {
    assert_eq!(open(&[1, 2, 3], true, &None), None);
    assert_eq!(open(&[1, 2, 3], false, &None), Some(vec![1, 2, 3]));
}
