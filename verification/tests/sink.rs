use buffout::codec::decompress;
use buffout::codec::CompressionLevel;
use buffout::error::ErrorKind;
use buffout::sink::CompressingSink;
use buffout::sink::DirectSink;
use buffout::sink::Sink;
use buffout::sink::DIRECT_CAPACITY;

#[test]
fn direct_capacity_is_one_hundred_mebibytes() {
    assert_eq!(DIRECT_CAPACITY, 100 * 1024 * 1024);
    assert_eq!(DIRECT_CAPACITY, 104_857_600);
    assert_eq!(DirectSink::new().limit(), 104_857_600);
    assert_eq!(DirectSink::new().buffered_len(), 0);
}

#[test]
fn direct_sink_keeps_what_fits() {
    let mut sink = DirectSink::with_capacity(8);
    assert_eq!(sink.limit(), 8);
    assert_eq!(sink.write(b"abc\n"), Vec::<u8>::new());
    assert_eq!(sink.buffered_len(), 4);
    assert_eq!(sink.write(b"def\n"), Vec::<u8>::new());
    assert_eq!(sink.buffered_len(), 8);
    assert_eq!(sink.finalize(), b"abc\ndef\n".to_vec());
}

#[test]
fn direct_sink_flushes_when_a_line_does_not_fit() {
    let mut sink = DirectSink::with_capacity(8);
    assert_eq!(sink.write(b"abcde\n"), Vec::<u8>::new());
    assert_eq!(sink.write(b"fgh\n"), b"abcde\n".to_vec());
    assert_eq!(sink.buffered_len(), 4);
    assert_eq!(sink.finalize(), b"fgh\n".to_vec());
}

#[test]
fn direct_sink_passes_a_large_line_through() {
    let mut sink = DirectSink::with_capacity(4);
    assert_eq!(sink.write(b"ab\n"), Vec::<u8>::new());
    assert_eq!(sink.write(b"0123456789\n"), b"ab\n0123456789\n".to_vec());
    assert_eq!(sink.buffered_len(), 0);
    assert_eq!(sink.write(b"wxyz"), Vec::<u8>::new());
    assert_eq!(sink.write(b"1234"), b"wxyz1234".to_vec());
    assert_eq!(sink.finalize(), Vec::<u8>::new());
}

#[test]
fn direct_sink_without_room_passes_everything_through() {
    let mut sink = DirectSink::with_capacity(0);
    assert_eq!(sink.write(b""), Vec::<u8>::new());
    assert_eq!(sink.write(b"a\n"), b"a\n".to_vec());
    assert_eq!(sink.finalize(), Vec::<u8>::new());
}

#[test]
fn direct_sink_loses_nothing() {
    let lines: [&[u8]; 6] = [b"1\n", b"22\n", b"333\n", b"4444444444\n", b"\n", b"55555\n"];
    for capacity in 0..16 {
        let mut sink = DirectSink::with_capacity(capacity);
        let mut file = Vec::new();
        for line in lines {
            file.extend(sink.write(line));
            assert!(sink.buffered_len() <= capacity);
        }
        file.extend(sink.finalize());
        assert_eq!(file, lines.concat(), "capacity {}", capacity);
    }
}

#[test]
fn compressing_sink_gives_a_gzip_stream_of_its_lines() {
    let level = CompressionLevel::new(6).unwrap();
    let mut sink = CompressingSink::new(level).unwrap();
    assert!(sink.check_open());
    let mut stream = sink.write(b"first\n").unwrap();
    stream.extend(sink.write(b"second\n").unwrap());
    stream.extend(sink.finalize().unwrap());
    assert_ne!(stream, b"first\nsecond\n".to_vec());
    assert_eq!(&stream[..3], &[0x1f, 0x8b, 0x08]);
    assert_eq!(decompress(&stream), Some(b"first\nsecond\n".to_vec()));
}

#[test]
fn select_without_level_is_direct() {
    match Sink::select(None) {
        Ok(Sink::Direct(sink)) => assert_eq!(sink.limit(), DIRECT_CAPACITY),
        _ => panic!("a direct sink was expected"),
    }
}

#[test]
fn select_with_level_is_compressing() {
    let level = CompressionLevel::new(3).unwrap();
    match Sink::select(Some(level)) {
        Ok(Sink::Compressing(sink)) => {
            assert!(sink.check_open());
            assert_eq!(decompress(&sink.finalize().unwrap()), Some(Vec::new()));
        }
        _ => panic!("a compressing sink was expected"),
    }
}

#[test]
fn sink_write_all_takes_lines_in_order() {
    let lines = vec![b"a\n".to_vec(), b"bb\n".to_vec(), b"ccc\n".to_vec()];
    let mut direct = Sink::Direct(DirectSink::with_capacity(4));
    assert!(direct.check_open());
    let flushed = direct.write_all(&lines).unwrap();
    assert_eq!(flushed, b"a\nbb\nccc\n".to_vec());
    assert_eq!(direct.write(b"dd\n"), Ok(Vec::new()));
    assert_eq!(direct.write(b"ee\n"), Ok(b"dd\n".to_vec()));
    assert_eq!(direct.finalize(), Ok(b"ee\n".to_vec()));

    let mut compressing = Sink::select(Some(CompressionLevel::new(9).unwrap())).unwrap();
    let mut stream = compressing.write_all(&lines).unwrap();
    stream.extend(compressing.write(b"dd\n").unwrap());
    stream.extend(compressing.finalize().unwrap());
    assert_eq!(decompress(&stream), Some(b"a\nbb\nccc\ndd\n".to_vec()));
}

#[test]
fn no_lines_are_always_taken() {
    assert_ne!(ErrorKind::IoWrite, ErrorKind::Finalize);
    let lines: Vec<Vec<u8>> = Vec::new();
    let mut direct = Sink::Direct(DirectSink::new());
    assert_eq!(direct.write_all(&lines), Ok(Vec::new()));
    let mut compressing = Sink::select(Some(CompressionLevel::new(2).unwrap())).unwrap();
    let mut stream = compressing.write_all(&lines).unwrap();
    stream.extend(compressing.finalize().unwrap());
    assert_eq!(decompress(&stream), Some(Vec::new()));
}

#[test]
fn a_compressing_sink_always_starts() {
    for level in 1..=9i64 {
        let level = CompressionLevel::new(level).unwrap();
        assert!(CompressingSink::new(level).is_ok());
        assert!(Sink::select(Some(level)).is_ok());
    }
}

#[test]
fn compressing_sink_gives_the_stream_piece_by_piece() {
    let level = CompressionLevel::new(1).unwrap();
    let mut sink = CompressingSink::new(level).unwrap();
    let mut plain = Vec::new();
    let mut stream = Vec::new();
    let mut i = 0u64;
    while plain.len() < 4 * 1024 * 1024 {
        let line = format!("{:010} {}\n", i, i.wrapping_mul(40503) % 65521).into_bytes();
        stream.extend(sink.write(&line).unwrap());
        plain.extend(line);
        i += 1;
    }
    let before_the_end = stream.len();
    stream.extend(sink.finalize().unwrap());
    assert!(before_the_end > 0);
    assert!(before_the_end < stream.len());
    assert_eq!(decompress(&stream), Some(plain));
}
