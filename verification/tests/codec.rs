use std::io::Read;
use std::io::Write;

use buffout::codec::append_bytes;
use buffout::codec::decompress;
use buffout::codec::finish_outcome;
use buffout::codec::write_outcome;
use buffout::codec::CompressionLevel;
use buffout::codec::DEFAULT_LEVEL;
use buffout::codec::WORKER_THREADS;
use buffout::error::ErrorKind;
use buffout::pipeline::buffer_output;
use gzp::GzpError;

fn gunzip(stream: &[u8]) -> Vec<u8> {
    let mut data = Vec::new();
    flate2::read::MultiGzDecoder::new(stream).read_to_end(&mut data).unwrap();
    data
}

#[test]
fn levels_one_to_nine_are_accepted() {
    for level in 1..=9i64 {
        assert_eq!(CompressionLevel::new(level).unwrap().value() as i64, level);
    }
}

#[test]
fn levels_outside_one_to_nine_are_refused() {
    for level in [0i64, -1, 10, 11, 100, i64::MIN, i64::MAX] {
        assert_eq!(CompressionLevel::new(level).unwrap_err(), ErrorKind::Configuration);
    }
}

#[test]
fn default_level_is_six() {
    assert_eq!(DEFAULT_LEVEL, 6);
    assert_eq!(CompressionLevel::default().value(), 6);
}

#[test]
fn four_worker_threads() {
    assert_eq!(WORKER_THREADS, 4);
}

#[test]
fn bytes_are_appended_in_order() {
    let mut target = b"ab".to_vec();
    assert_eq!(append_bytes(&mut target, b"cde"), 3);
    assert_eq!(target, b"abcde".to_vec());
    assert_eq!(append_bytes(&mut target, b""), 0);
    assert_eq!(target, b"abcde".to_vec());
}

#[test]
fn gzip_scenario_level_one() {
    let level = CompressionLevel::new(1).unwrap();
    let stream = buffer_output(b"a\nb\nc", Some(level)).unwrap();
    assert_eq!(gunzip(&stream), b"a\nb\nc\n".to_vec());
    assert_eq!(decompress(&stream), Some(b"a\nb\nc\n".to_vec()));
}

#[test]
fn gzip_of_nothing_is_a_valid_empty_stream() {
    for level in 1..=9i64 {
        let level = CompressionLevel::new(level).unwrap();
        let stream = buffer_output(b"", Some(level)).unwrap();
        assert!(!stream.is_empty());
        assert_eq!(&stream[..2], &[0x1f, 0x8b]);
        assert_eq!(gunzip(&stream), Vec::<u8>::new());
    }
}

#[test]
fn gzip_holds_what_the_direct_sink_writes() {
    let inputs: [&[u8]; 6] = [b"", b"a", b"a\n", b"a\nb\nc", b"\n\n", b"no newline at all"];
    for input in inputs {
        let plain = buffer_output(input, None).unwrap();
        for level in [1i64, 6, 9] {
            let level = CompressionLevel::new(level).unwrap();
            let stream = buffer_output(input, Some(level)).unwrap();
            assert_eq!(gunzip(&stream), plain);
            assert_eq!(decompress(&stream), Some(plain.clone()));
        }
    }
}

#[test]
fn gzip_header_names_the_level() {
    let fastest = buffer_output(b"x\n", Some(CompressionLevel::new(1).unwrap())).unwrap();
    let middle = buffer_output(b"x\n", Some(CompressionLevel::new(6).unwrap())).unwrap();
    let best = buffer_output(b"x\n", Some(CompressionLevel::new(9).unwrap())).unwrap();
    assert_eq!(&fastest[..4], &[0x1f, 0x8b, 0x08, 0x00]);
    assert_eq!(fastest[8], 4);
    assert_eq!(middle[8], 0);
    assert_eq!(best[8], 2);
}

#[test]
fn gzip_is_the_same_for_the_same_input() {
    let mut input = Vec::new();
    for i in 0..20000u32 {
        input.extend_from_slice(format!("line number {}\n", i).as_bytes());
    }
    let level = CompressionLevel::new(6).unwrap();
    let first = buffer_output(&input, Some(level)).unwrap();
    let second = buffer_output(&input, Some(level)).unwrap();
    assert_eq!(first, second);
    assert!(first.len() < input.len());
}

#[test]
fn compressed_blocks_keep_the_order_of_the_lines() {
    let mut input = Vec::new();
    let mut i = 0u64;
    while input.len() < 3 * 1024 * 1024 {
        input.extend_from_slice(format!("{:08} {}\n", i, i.wrapping_mul(2654435761) % 9973).as_bytes());
        i += 1;
    }
    let level = CompressionLevel::new(1).unwrap();
    let stream = buffer_output(&input, Some(level)).unwrap();
    let plain = buffer_output(&input, None).unwrap();
    let back = gunzip(&stream);
    assert_eq!(back.len(), plain.len());
    for (n, (got, wanted)) in back.chunks(128 * 1024).zip(plain.chunks(128 * 1024)).enumerate() {
        assert!(got == wanted, "segment {} differs", n);
    }
}

#[test]
fn decompress_refuses_what_is_no_gzip() {
    assert_eq!(decompress(b"a\nb\nc\n"), None);
    assert_eq!(decompress(&[0x1f, 0x8b, 0x08]), None);
}

#[test]
fn decompress_reads_what_flate2_writes() {
    let mut encoder = flate2::write::GzEncoder::new(Vec::new(), flate2::Compression::new(5));
    encoder.write_all(b"hello\nworld\n").unwrap();
    let stream = encoder.finish().unwrap();
    assert_eq!(decompress(&stream), Some(b"hello\nworld\n".to_vec()));
}

#[test]
fn encoder_failures_become_write_and_finalize_errors() {
    assert_eq!(finish_outcome(Ok(vec![1, 2, 3])), Ok(vec![1, 2, 3]));
    assert_eq!(finish_outcome(Err(GzpError::Unknown)), Err(ErrorKind::Finalize));
    assert_eq!(finish_outcome(Err(GzpError::ChannelSend)), Err(ErrorKind::Finalize));
    assert_eq!(write_outcome(Err(GzpError::NumThreads(0))).err(), Some(ErrorKind::IoWrite));
    assert_eq!(write_outcome(Err(GzpError::Unknown)).err(), Some(ErrorKind::IoWrite));
}
