use protostore::geometry::{aligned_read, request_slice};
use protostore::protocol::{encode_response, Request, RequestType};
use protostore::server::{respond_write, Connection, Step};
use protostore::toc::TableOfContents;

fn key(last: u8) -> [u8; 16] {
    let mut k = [0u8; 16];
    k[15] = last;
    k
}

fn toc_of(entries: &[([u8; 16], u64, u16)]) -> TableOfContents {
    let mut u = Vec::new();
    let mut o = Vec::new();
    let mut l = Vec::new();
    for (k, off, len) in entries {
        u.extend_from_slice(k);
        o.extend_from_slice(&off.to_le_bytes());
        l.extend_from_slice(&len.to_le_bytes());
    }
    TableOfContents::from_bytes(&u, &o, &l).unwrap()
}

fn read(id: u64, k: [u8; 16]) -> Request {
    Request { id, reqtype: RequestType::Read, uuid: k, body: vec![] }
}

fn sequential_u64(n: u64) -> Vec<u8> {
    let mut data = Vec::new();
    for i in 0..n {
        data.extend_from_slice(&i.to_be_bytes());
    }
    data
}

#[test]
fn geometry_of_a_sub_sector_read() {
    let g = aligned_read(7, 5);
    assert_eq!(0, g.aligned_offset);
    assert_eq!(7, g.pad_left);
    assert_eq!(512, g.aligned_len);
    assert_eq!(5, g.len);
}

#[test]
fn geometry_rounds_to_sectors() {
    let g = aligned_read(1000, 100);
    assert_eq!((512, 488, 1024), (g.aligned_offset, g.pad_left, g.aligned_len));
    let g = aligned_read(512, 512);
    assert_eq!((512, 0, 512), (g.aligned_offset, g.pad_left, g.aligned_len));
    let g = aligned_read(511, 2);
    assert_eq!((0, 511, 1024), (g.aligned_offset, g.pad_left, g.aligned_len));
    let g = aligned_read(4096, 0);
    assert_eq!((4096, 0, 512), (g.aligned_offset, g.pad_left, g.aligned_len));
    let g = aligned_read(u64::MAX, 65535);
    assert_eq!(u64::MAX - 511, g.aligned_offset);
    assert_eq!(511, g.pad_left);
    assert_eq!(66048, g.aligned_len);
}

#[test]
fn every_issued_read_is_aligned() {
    for offset in [0u64, 1, 7, 511, 512, 513, 100_000, u64::MAX - 1] {
        for len in [0u16, 1, 5, 511, 512, 513, 65535] {
            let g = aligned_read(offset, len);
            assert_eq!(0, g.aligned_offset % 512);
            assert_eq!(0, g.aligned_len % 512);
            assert!(g.aligned_len >= 512);
            assert!(g.pad_left + len as u64 <= g.aligned_len);
        }
    }
}

#[test]
fn slice_of_a_short_read_is_empty() {
    let g = aligned_read(7, 5);
    assert_eq!(vec![7u8, 8, 9, 10, 11], request_slice(&g, &(0u8..32).collect::<Vec<u8>>()));
    assert!(request_slice(&g, &[0u8; 11]).is_empty());
}

#[test]
fn sub_sector_read_replies_with_its_bytes() {
    let toc = toc_of(&[(key(1), 7, 5)]);
    let mut conn = Connection::new(false, 65535);
    let g = match conn.on_request(&toc, &read(42, key(1))) {
        Step::Read(g) => g,
        Step::Reply(_) => panic!("expected a read"),
    };
    assert_eq!((0, 512), (g.aligned_offset, g.aligned_len));
    let sector: Vec<u8> = (0..512).map(|i| (i % 256) as u8).collect();
    let resp = conn.read_done(Some(&sector));
    assert_eq!(42, resp.id);
    assert_eq!(vec![7u8, 8, 9, 10, 11], resp.body);
    assert!(!conn.is_awaiting());
}

#[test]
fn sequential_read_returns_the_first_sector() {
    let data = sequential_u64(1024);
    assert_eq!(8192, data.len());
    let toc = toc_of(&[(key(9), 0, 512)]);
    let mut conn = Connection::new(false, 65535);
    let g = match conn.on_request(&toc, &read(1, key(9))) {
        Step::Read(g) => g,
        Step::Reply(_) => panic!("expected a read"),
    };
    assert_eq!((0, 512), (g.aligned_offset, g.aligned_len));
    let start = g.aligned_offset as usize;
    let resp = conn.read_done(Some(&data[start..start + g.aligned_len as usize]));
    assert_eq!(512, resp.body.len());
    for i in 0..64u64 {
        let at = (i * 8) as usize;
        let mut word = [0u8; 8];
        word.copy_from_slice(&resp.body[at..at + 8]);
        assert_eq!(i, u64::from_be_bytes(word));
    }
}

#[test]
fn unknown_key_gets_an_empty_response() {
    let toc = toc_of(&[(key(1), 0, 4), (key(2), 4, 4)]);
    let mut conn = Connection::new(false, 65535);
    let resp = match conn.on_request(&toc, &read(77, key(3))) {
        Step::Reply(r) => r,
        Step::Read(_) => panic!("expected a reply"),
    };
    assert_eq!(77, resp.id);
    let frame = encode_response(&resp);
    assert_eq!(&77u64.to_be_bytes()[..], &frame[..8]);
    assert_eq!(&[0u8, 0, 0, 0][..], &frame[8..12]);
    assert_eq!(12, frame.len());
}

#[test]
fn failed_read_gets_an_empty_response() {
    let toc = toc_of(&[(key(1), 0, 4)]);
    let mut conn = Connection::new(false, 65535);
    assert!(matches!(conn.on_request(&toc, &read(5, key(1))), Step::Read(_)));
    assert!(conn.is_awaiting());
    let resp = conn.read_done(None);
    assert_eq!(5, resp.id);
    assert!(resp.body.is_empty());
}

#[test]
fn short_circuit_reads_skip_the_index() {
    let toc = toc_of(&[]);
    let mut conn = Connection::new(true, 16);
    assert_eq!(16, conn.max_value_len());
    match conn.on_request(&toc, &read(3, key(1))) {
        Step::Reply(r) => {
            assert_eq!(3, r.id);
            assert_eq!(vec![0u8, 1, 2, 3], r.body);
        }
        Step::Read(_) => panic!("expected a reply"),
    }
}

#[test]
fn writes_are_acknowledged() {
    let req = Request { id: 8, reqtype: RequestType::Write, uuid: key(1), body: vec![1] };
    let resp = respond_write(&req);
    assert_eq!(8, resp.id);
    assert_eq!(b"write".to_vec(), resp.body);
}

#[test]
fn responses_leave_in_request_order() {
    let toc = toc_of(&[(key(1), 0, 4), (key(2), 600, 4)]);
    let mut conn = Connection::new(false, 65535);
    let sector = vec![0u8; 1024];
    let mut sent = Vec::new();
    let reqs = vec![
        read(10, key(1)),
        Request { id: 11, reqtype: RequestType::Write, uuid: key(1), body: vec![] },
        read(12, key(5)),
        read(13, key(2)),
    ];
    for req in &reqs {
        match conn.on_request(&toc, req) {
            Step::Reply(r) => sent.push(r.id),
            Step::Read(_) => sent.push(conn.read_done(Some(&sector)).id),
        }
    }
    assert_eq!(vec![10, 11, 12, 13], sent);
}
