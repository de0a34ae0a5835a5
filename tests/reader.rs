use linereader::{ByteSource, Line, LineReader, MemorySource, DEFAULT_BUF_SIZE, NEWLINE};

#[test]
fn try_read_line() {
    let cur = MemorySource::new(b"12\n345".to_vec());
    let mut reader = LineReader::new(cur.clone());
    let mut buf = vec![0; 1];
    assert_eq!(reader.try_read_line(&mut buf).ok(), Some(Line::More(1)));
    assert_eq!(reader.try_read_line(&mut buf).ok(), Some(Line::More(1)));
    assert_eq!(reader.try_read_line(&mut buf).ok(), Some(Line::Return(1)));
    assert_eq!(reader.try_read_line(&mut buf).ok(), Some(Line::More(1)));
    assert_eq!(reader.try_read_line(&mut buf).ok(), Some(Line::More(1)));
    assert_eq!(reader.try_read_line(&mut buf).ok(), Some(Line::More(1)));
    assert_eq!(reader.try_read_line(&mut buf).ok(), Some(Line::Return(0)));

    let mut reader = LineReader::new(cur.clone());
    let mut buf = vec![0; 2];
    assert_eq!(reader.try_read_line(&mut buf).ok(), Some(Line::More(2)));
    assert_eq!(reader.try_read_line(&mut buf).ok(), Some(Line::Return(1)));
    assert_eq!(reader.try_read_line(&mut buf).ok(), Some(Line::More(2)));
    assert_eq!(reader.try_read_line(&mut buf).ok(), Some(Line::Return(1)));

    let mut reader = LineReader::new(cur.clone());
    let mut buf = vec![0; 4];
    assert_eq!(reader.try_read_line(&mut buf).ok(), Some(Line::Return(3)));
    assert_eq!(reader.try_read_line(&mut buf).ok(), Some(Line::Return(3)));
}

/// Reads until `Return(0)`, returning each result with the bytes written.
fn read_all<R: ByteSource>(reader: &mut LineReader<R>, len: usize) -> Vec<(Line, Vec<u8>)> {
    let mut out = Vec::new();
    let mut buf = vec![0u8; len];
    loop {
        let line = reader.try_read_line(&mut buf).unwrap();
        let n = line.amount();
        let done = line == Line::Return(0);
        out.push((line, buf[..n].to_vec()));
        if done {
            return out;
        }
    }
}

fn joined(frags: &[(Line, Vec<u8>)]) -> Vec<u8> {
    frags.iter().flat_map(|(_, b)| b.iter().copied()).collect()
}

#[test]
fn one_byte_destination_fragments() {
    let mut reader = LineReader::new(MemorySource::new(b"12\n345".to_vec()));
    let got = read_all(&mut reader, 1);
    let want: Vec<(Line, Vec<u8>)> = vec![
        (Line::More(1), b"1".to_vec()),
        (Line::More(1), b"2".to_vec()),
        (Line::Return(1), b"\n".to_vec()),
        (Line::More(1), b"3".to_vec()),
        (Line::More(1), b"4".to_vec()),
        (Line::More(1), b"5".to_vec()),
        (Line::Return(0), vec![]),
    ];
    assert_eq!(got, want);
}

#[test]
fn two_byte_destination_fragments() {
    let mut reader = LineReader::new(MemorySource::new(b"12\n345".to_vec()));
    let got = read_all(&mut reader, 2);
    let want: Vec<(Line, Vec<u8>)> = vec![
        (Line::More(2), b"12".to_vec()),
        (Line::Return(1), b"\n".to_vec()),
        (Line::More(2), b"34".to_vec()),
        (Line::Return(1), b"5".to_vec()),
        (Line::Return(0), vec![]),
    ];
    assert_eq!(got, want);
}

#[test]
fn four_byte_destination_fragments() {
    let mut reader = LineReader::new(MemorySource::new(b"12\n345".to_vec()));
    let got = read_all(&mut reader, 4);
    let want: Vec<(Line, Vec<u8>)> = vec![
        (Line::Return(3), b"12\n".to_vec()),
        (Line::Return(3), b"345".to_vec()),
        (Line::Return(0), vec![]),
    ];
    assert_eq!(got, want);
}

#[test]
fn reading_to_end_rebuilds_the_stream() {
    let data = b"first line\n\nthird, a longer one\nno terminator".to_vec();
    for len in 1..20 {
        for cap in [1usize, 3, 7, DEFAULT_BUF_SIZE] {
            let mut reader = LineReader::with_capacity(cap, MemorySource::new(data.clone()));
            let frags = read_all(&mut reader, len);
            assert_eq!(joined(&frags), data);
            let zeros = frags.iter().filter(|(l, _)| *l == Line::Return(0)).count();
            assert_eq!(zeros, 1);
        }
    }
}

#[test]
fn more_fills_and_return_ends_with_newline() {
    let data = b"ab\ncdefgh\n\nxyz\n".to_vec();
    for len in 1..12 {
        let mut reader = LineReader::with_capacity(2, MemorySource::new(data.clone()));
        for (line, bytes) in read_all(&mut reader, len) {
            match line {
                Line::More(n) => assert_eq!(n, len),
                Line::Return(0) => assert!(bytes.is_empty()),
                Line::Return(n) => assert_eq!(bytes[n - 1], NEWLINE),
            }
        }
    }
}

#[test]
fn unterminated_last_line_is_returned() {
    let mut reader = LineReader::new(MemorySource::new(b"abc".to_vec()));
    let mut buf = vec![0u8; 8];
    assert_eq!(reader.try_read_line(&mut buf).ok(), Some(Line::Return(3)));
    assert_eq!(&buf[..3], b"abc");
    assert_eq!(reader.try_read_line(&mut buf).ok(), Some(Line::Return(0)));
}

#[test]
fn empty_destination_is_a_no_op() {
    let mut reader = LineReader::with_capacity(4, MemorySource::new(b"ab\ncd".to_vec()));
    let mut empty: Vec<u8> = vec![];
    assert_eq!(reader.try_read_line(&mut empty).ok(), Some(Line::More(0)));
    let mut buf = vec![0u8; 1];
    assert_eq!(reader.try_read_line(&mut buf).ok(), Some(Line::More(1)));
    assert_eq!(reader.try_read_line(&mut empty).ok(), Some(Line::More(0)));
    assert_eq!(reader.try_read_line(&mut buf).ok(), Some(Line::More(1)));
    assert_eq!(buf, b"b".to_vec());
}

#[test]
fn empty_destination_on_empty_stream_is_not_eof() {
    let mut reader = LineReader::new(MemorySource::new(vec![]));
    let mut empty: Vec<u8> = vec![];
    assert_eq!(reader.try_read_line(&mut empty).ok(), Some(Line::More(0)));
    let mut buf = vec![0u8; 3];
    assert_eq!(reader.try_read_line(&mut buf).ok(), Some(Line::Return(0)));
}

#[test]
fn capacity_does_not_change_fragments() {
    let data = b"12\n345\nabcdefghij\n\nz".to_vec();
    for len in 1..15 {
        let mut small = LineReader::with_capacity(1, MemorySource::new(data.clone()));
        let mut large = LineReader::with_capacity(8192, MemorySource::new(data.clone()));
        assert_eq!(read_all(&mut small, len), read_all(&mut large, len));
    }
}

#[test]
fn short_reads_are_tolerated() {
    let data = b"hello world\nbye\n".to_vec();
    for chunk in 1..5 {
        let mut chunked = LineReader::with_capacity(16, MemorySource::with_chunk(data.clone(), chunk));
        let mut whole = LineReader::new(MemorySource::new(data.clone()));
        assert_eq!(read_all(&mut chunked, 5), read_all(&mut whole, 5));
    }
}

#[test]
fn newline_search_stops_at_first_terminator() {
    let mut reader = LineReader::new(MemorySource::new(b"a\nb\nc".to_vec()));
    let mut buf = vec![0u8; 10];
    assert_eq!(reader.try_read_line(&mut buf).ok(), Some(Line::Return(2)));
    assert_eq!(&buf[..2], b"a\n");
    assert_eq!(reader.try_read_line(&mut buf).ok(), Some(Line::Return(2)));
    assert_eq!(&buf[..2], b"b\n");
}

#[test]
fn line_amount_of_each_variant() {
    assert_eq!(Line::Return(7).amount(), 7);
    assert_eq!(Line::More(3).amount(), 3);
}

#[test]
fn memory_source_serves_in_chunks() {
    let mut src = MemorySource::with_chunk(b"abcde".to_vec(), 2);
    let mut buf = vec![0u8; 4];
    assert_eq!(src.read(&mut buf).unwrap(), 2);
    assert_eq!(&buf[..2], b"ab");
    assert_eq!(src.read(&mut buf).unwrap(), 2);
    assert_eq!(&buf[..2], b"cd");
    assert_eq!(src.read(&mut buf).unwrap(), 1);
    assert_eq!(&buf[..1], b"e");
    assert_eq!(src.read(&mut buf).unwrap(), 0);
}

#[test]
fn source_error_is_passed_on() {
    let src = MemorySource::failing(b"ab\ncd".to_vec());
    let mut reader = LineReader::new(src);
    let mut buf = vec![0u8; 8];
    assert_eq!(reader.try_read_line(&mut buf).ok(), Some(Line::Return(3)));
    assert_eq!(&buf[..3], b"ab\n");
    let err = reader.try_read_line(&mut buf).unwrap_err();
    assert_eq!(err.kind(), std::io::ErrorKind::Other);
    assert_eq!(&buf[..2], b"cd");
    let err = reader.try_read_line(&mut buf).unwrap_err();
    assert_eq!(err.kind(), std::io::ErrorKind::Other);
}

#[test]
fn buffered_answer_needs_no_read() {
    let src = MemorySource::failing(b"abc\ndef".to_vec());
    let mut reader = LineReader::with_capacity(16, src);
    let mut buf = vec![0u8; 2];
    assert_eq!(reader.try_read_line(&mut buf).ok(), Some(Line::More(2)));
    assert_eq!(reader.try_read_line(&mut buf).ok(), Some(Line::Return(2)));
    assert_eq!(buf, b"c\n".to_vec());
    assert_eq!(reader.try_read_line(&mut buf).ok(), Some(Line::More(2)));
    assert_eq!(buf, b"de".to_vec());
    assert!(reader.try_read_line(&mut buf).is_err());
}

#[test]
fn default_capacity_reader_reads_long_lines() {
    let mut data = vec![b'x'; 3 * DEFAULT_BUF_SIZE + 5];
    data.push(NEWLINE);
    data.extend_from_slice(b"tail");
    let mut reader = LineReader::new(MemorySource::with_chunk(data.clone(), 1000));
    let frags = read_all(&mut reader, 4096);
    assert_eq!(joined(&frags), data);
    assert_eq!(frags[0].0, Line::More(4096));
    assert_eq!(frags[5].0, Line::More(4096));
    assert_eq!(frags[6].0, Line::Return(6));
    assert_eq!(frags[7], (Line::Return(4), b"tail".to_vec()));
    assert_eq!(frags[8].0, Line::Return(0));
    assert_eq!(frags.len(), 9);
}

#[test]
fn bytes_past_the_amount_are_kept() {
    let mut reader = LineReader::new(MemorySource::new(b"a\nb".to_vec()));
    let mut buf = b"xyzw".to_vec();
    assert_eq!(reader.try_read_line(&mut buf).ok(), Some(Line::Return(2)));
    assert_eq!(buf, b"a\nzw".to_vec());
    assert_eq!(reader.try_read_line(&mut buf).ok(), Some(Line::Return(1)));
    assert_eq!(buf, b"b\nzw".to_vec());
}

#[test]
fn failing_source_reports_error_at_end() {
    let mut src = MemorySource::failing(b"ab".to_vec());
    let mut buf = vec![0u8; 4];
    assert_eq!(src.read(&mut buf).unwrap(), 2);
    assert!(src.read(&mut buf).is_err());
    let mut empty: Vec<u8> = vec![];
    assert_eq!(src.read(&mut empty).unwrap(), 0);
}

#[test]
fn zero_chunk_serves_one_byte_per_read() {
    let mut src = MemorySource::with_chunk(b"xy".to_vec(), 0);
    let mut buf = vec![0u8; 4];
    assert_eq!(src.read(&mut buf).unwrap(), 1);
    assert_eq!(buf[0], b'x');
    assert_eq!(src.read(&mut buf).unwrap(), 1);
    assert_eq!(buf[0], b'y');
    assert_eq!(src.read(&mut buf).unwrap(), 0);
}
