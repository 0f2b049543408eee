use protostore::toc::{TableOfContents, TocError};

fn index_bytes(uuids: &[[u8; 16]], offsets: &[u64], lens: &[u16]) -> (Vec<u8>, Vec<u8>, Vec<u8>) {
    let mut u = Vec::new();
    for uuid in uuids {
        u.extend_from_slice(uuid);
    }
    let mut o = Vec::new();
    for offset in offsets {
        o.extend_from_slice(&offset.to_le_bytes());
    }
    let mut l = Vec::new();
    for len in lens {
        l.extend_from_slice(&len.to_le_bytes());
    }
    (u, o, l)
}

fn key(last: u8) -> [u8; 16] {
    let mut k = [0u8; 16];
    k[15] = last;
    k
}

#[test]
fn open() {
    let uuids: Vec<[u8; 16]> = vec![
        [0, 0, 0, 0, 0, 0, 0, 0, 0, 0, 0, 0, 0, 0, 0, 1],
        [0, 0, 0, 0, 0, 0, 0, 0, 0, 0, 0, 0, 0, 0, 0, 2],
        [0, 0, 0, 0, 0, 0, 0, 0, 0, 0, 0, 0, 0, 0, 0, 5],
    ];
    let offsets: Vec<u64> = vec![0, 4, 8];
    let lens: Vec<u16> = vec![4, 4, 4];
    let (u, o, l) = index_bytes(&uuids, &offsets, &lens);

    let toc = TableOfContents::from_bytes(&u, &o, &l);
    assert!(toc.is_ok());
    let toc = toc.unwrap();

    assert_eq!(Some((4, 4)), toc.offset_and_len(&uuids[1]));
    assert_eq!(
        None,
        toc.offset_and_len(&[0, 0, 0, 0, 0, 0, 0, 0, 0, 0, 0, 0, 0, 0, 0, 4])
    );
    assert_eq!(4, toc.max_len());
}

#[test]
fn every_present_key_is_found() {
    let uuids = vec![key(1), key(2), key(5), [0xff; 16]];
    let offsets = vec![0, 10, 1 << 40, u64::MAX - 3];
    let lens = vec![10, 7, 65535, 3];
    let (u, o, l) = index_bytes(&uuids, &offsets, &lens);
    let toc = TableOfContents::from_bytes(&u, &o, &l).unwrap();
    assert!(toc.keys_ascending());
    assert_eq!(4, toc.len());
    for i in 0..uuids.len() {
        assert_eq!(Some((offsets[i], lens[i])), toc.offset_and_len(&uuids[i]));
    }
    assert_eq!(65535, toc.max_len());
}

#[test]
fn absent_keys_are_not_found() {
    let uuids = vec![key(1), key(2), key(5)];
    let (u, o, l) = index_bytes(&uuids, &[0, 4, 8], &[4, 4, 4]);
    let toc = TableOfContents::from_bytes(&u, &o, &l).unwrap();
    assert_eq!(None, toc.offset_and_len(&key(0)));
    assert_eq!(None, toc.offset_and_len(&key(3)));
    assert_eq!(None, toc.offset_and_len(&key(6)));
    let mut high = key(1);
    high[0] = 1;
    assert_eq!(None, toc.offset_and_len(&high));
}

#[test]
fn keys_compare_by_their_first_differing_byte() {
    let mut a = [0u8; 16];
    a[0] = 1;
    let mut b = [0u8; 16];
    b[0] = 1;
    b[15] = 9;
    let mut c = [0u8; 16];
    c[0] = 2;
    let (u, o, l) = index_bytes(&[key(200), a, b, c], &[1, 2, 3, 4], &[1, 2, 3, 4]);
    let toc = TableOfContents::from_bytes(&u, &o, &l).unwrap();
    assert!(toc.keys_ascending());
    assert_eq!(Some((3, 3)), toc.offset_and_len(&b));
    assert_eq!(Some((1, 1)), toc.offset_and_len(&key(200)));
}

#[test]
fn empty_index_has_max_len_zero() {
    let toc = TableOfContents::from_bytes(&[], &[], &[]).unwrap();
    assert_eq!(0, toc.max_len());
    assert_eq!(0, toc.len());
    assert_eq!(None, toc.offset_and_len(&key(1)));
}

#[test]
fn sizes_that_disagree_are_malformed() {
    let (u, o, l) = index_bytes(&[key(1), key(2)], &[0, 4], &[4, 4]);
    assert_eq!(
        Some(TocError::MalformedIndex),
        TableOfContents::from_bytes(&u[..31], &o, &l).err()
    );
    assert_eq!(
        Some(TocError::MalformedIndex),
        TableOfContents::from_bytes(&u, &o[..8], &l).err()
    );
    assert_eq!(
        Some(TocError::MalformedIndex),
        TableOfContents::from_bytes(&u, &o, &l[..3]).err()
    );
}

#[test]
fn descending_keys_are_reported() {
    let (u, o, l) = index_bytes(&[key(2), key(1)], &[0, 4], &[4, 4]);
    let toc = TableOfContents::from_bytes(&u, &o, &l).unwrap();
    assert!(!toc.keys_ascending());
    let (u, o, l) = index_bytes(&[key(2), key(2)], &[0, 4], &[4, 4]);
    let toc = TableOfContents::from_bytes(&u, &o, &l).unwrap();
    assert!(!toc.keys_ascending());
}

#[test]
fn entries_must_fit_in_the_data_file() {
    let (u, o, l) = index_bytes(&[key(1), key(2)], &[0, 4], &[4, 6]);
    let toc = TableOfContents::from_bytes(&u, &o, &l).unwrap();
    assert!(toc.entries_fit(10));
    assert!(toc.entries_fit(4096));
    assert!(!toc.entries_fit(9));
    let (u, o, l) = index_bytes(&[key(1)], &[u64::MAX], &[1]);
    let toc = TableOfContents::from_bytes(&u, &o, &l).unwrap();
    assert!(!toc.entries_fit(u64::MAX));
}
