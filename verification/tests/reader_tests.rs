use icy_metadata::error::MetadataParseError;
use icy_metadata::metadata::IcyMetadata;
use icy_metadata::reader::{IcyMetadataReader, MetadataEvent};
use icy_metadata::source::{MemorySource, SeekPos, StreamError};

/// Appends one audio run of `meta_int` bytes of `1`s and one frame holding
/// `meta` to `data`, padded with NULs as the wire format demands.
fn add_frame(data: &mut Vec<u8>, meta_int: usize, meta: &str) {
    let meta_bytes = meta.as_bytes();
    let meta_byte = meta_bytes.len() / 16 + 1;
    data.extend(std::iter::repeat(1u8).take(meta_int));
    data.push(meta_byte as u8);
    data.extend_from_slice(meta_bytes);
    data.extend(std::iter::repeat(0u8).take(meta_byte * 16 - meta_bytes.len()));
}

fn build_stream(metas: &[&str], meta_int: usize, trailing: usize) -> Vec<u8> {
    let mut data = Vec::new();
    for meta in metas {
        add_frame(&mut data, meta_int, meta);
    }
    data.extend(std::iter::repeat(1u8).take(trailing));
    data
}

fn reader_over(
    metas: &[&str],
    meta_int: usize,
    trailing: usize,
) -> IcyMetadataReader<MemorySource> {
    let data = build_stream(metas, meta_int, trailing);
    IcyMetadataReader::new(MemorySource::new(data), Some(meta_int))
}

fn titles(events: &[MetadataEvent]) -> Vec<String> {
    events
        .iter()
        .map(|e| e.as_ref().unwrap().stream_title().unwrap().to_string())
        .collect()
}

fn urls(events: &[MetadataEvent]) -> Vec<String> {
    events
        .iter()
        .map(|e| e.as_ref().unwrap().stream_url().unwrap().to_string())
        .collect()
}

#[test]
fn read_stream_title() {
    for (meta_int, trailing) in [(1usize, 0usize), (5, 0), (5, 4)] {
        for iters in [1usize, 2] {
            let metas: Vec<String> = (0..iters)
                .map(|i| format!("StreamTitle='stream-title{i}';"))
                .collect();
            let meta_refs: Vec<&str> = metas.iter().map(|s| s.as_str()).collect();
            let mut reader = reader_over(&meta_refs, meta_int, trailing);
            let buf = reader.read_to_end().unwrap();
            assert_eq!(buf, vec![1u8; meta_int * iters + trailing]);
            let events = reader.take_events();
            assert_eq!(events.len(), iters);
            for (i, t) in titles(&events).iter().enumerate() {
                assert_eq!(t, &format!("stream-title{i}"));
            }
        }
    }
}

#[test]
fn read_stream_url() {
    for (meta_int, trailing) in [(1usize, 0usize), (5, 0), (5, 4)] {
        for iters in [1usize, 2] {
            let metas: Vec<String> = (0..iters)
                .map(|i| format!("StreamUrl='stream-url{i}';"))
                .collect();
            let meta_refs: Vec<&str> = metas.iter().map(|s| s.as_str()).collect();
            let mut reader = reader_over(&meta_refs, meta_int, trailing);
            let buf = reader.read_to_end().unwrap();
            assert_eq!(buf, vec![1u8; meta_int * iters + trailing]);
            let events = reader.take_events();
            for (i, u) in urls(&events).iter().enumerate() {
                assert_eq!(u, &format!("stream-url{i}"));
            }
        }
    }
}

#[test]
fn all_stream_properties() {
    for (meta_int, trailing) in [(1usize, 0usize), (5, 0), (5, 4)] {
        for iters in [1usize, 2] {
            let metas: Vec<String> = (0..iters)
                .map(|i| {
                    format!("StreamTitle='stream-title{i}';StreamUrl='stream-url{i}';CustomVal='custom{i}';")
                })
                .collect();
            let meta_refs: Vec<&str> = metas.iter().map(|s| s.as_str()).collect();
            let mut reader = reader_over(&meta_refs, meta_int, trailing);
            let buf = reader.read_to_end().unwrap();
            assert_eq!(buf, vec![1u8; meta_int * iters + trailing]);
            let events = reader.take_events();
            for (i, e) in events.iter().enumerate() {
                let md = e.as_ref().unwrap();
                assert_eq!(md.stream_title().unwrap(), format!("stream-title{i}"));
                assert_eq!(md.stream_url().unwrap(), format!("stream-url{i}"));
                let custom = md.custom_fields();
                let found = custom
                    .iter()
                    .find(|(k, _)| k == "CustomVal")
                    .map(|(_, v)| v.clone());
                assert_eq!(found, Some(format!("custom{i}")));
            }
        }
    }
}

#[test]
fn empty_metadata() {
    for (meta_int, trailing) in [(1usize, 0usize), (5, 0), (5, 4)] {
        for iters in [1usize, 2] {
            let metas: Vec<&str> = vec![""; iters];
            let mut reader = reader_over(&metas, meta_int, trailing);
            let buf = reader.read_to_end().unwrap();
            assert_eq!(buf, vec![1u8; meta_int * iters + trailing]);
            let events = reader.take_events();
            assert_eq!(events.len(), iters);
            for e in events {
                assert_eq!(
                    e,
                    Err(MetadataParseError::Empty(
                        icy_metadata::error::EmptyMetadataError("".to_string())
                    ))
                );
            }
        }
    }
}

#[test]
fn read_larger_than_stream_size() {
    for iters in [1usize, 2] {
        let (meta_int, trailing) = (10usize, 5usize);
        let metas: Vec<String> = (0..iters)
            .map(|i| format!("StreamUrl='stream-url{i}';"))
            .collect();
        let meta_refs: Vec<&str> = metas.iter().map(|s| s.as_str()).collect();
        let mut reader = reader_over(&meta_refs, meta_int, trailing);
        let stream_size = meta_int * iters + trailing;
        let buf = reader.read(stream_size + 1).unwrap();
        assert_eq!(buf.len(), stream_size);
        assert_eq!(buf, vec![1u8; stream_size]);
        let events = reader.take_events();
        for (i, u) in urls(&events).iter().enumerate() {
            assert_eq!(u, &format!("stream-url{i}"));
        }
    }
}

#[test]
fn small_reads() {
    // reads of one byte at a time produce byte-identical output to one
    // large read, and the same events in the same order
    for iters in [1usize, 2] {
        let (meta_int, trailing) = (10usize, 5usize);
        let metas: Vec<String> = (0..iters)
            .map(|i| format!("StreamUrl='stream-url{i}';"))
            .collect();
        let meta_refs: Vec<&str> = metas.iter().map(|s| s.as_str()).collect();
        let mut reader = reader_over(&meta_refs, meta_int, trailing);
        let stream_size = meta_int * iters + trailing;
        let mut buf: Vec<u8> = Vec::new();
        while buf.len() < stream_size {
            let chunk = reader.read(1).unwrap();
            assert_eq!(chunk.len(), 1);
            buf.extend_from_slice(&chunk);
        }
        assert_eq!(buf, vec![1u8; stream_size]);

        let mut big = reader_over(&meta_refs, meta_int, trailing);
        let whole = big.read(stream_size).unwrap();
        assert_eq!(buf, whole);
        assert_eq!(reader.take_events(), big.take_events());
    }
}

#[test]
fn seek_from_start() {
    let metas = [
        "StreamUrl='stream-url0';",
        "StreamUrl='stream-urlabc1235678';",
        "StreamUrl='stream-url123';",
    ];
    let cases: Vec<(usize, Vec<&str>)> = vec![
        (
            0,
            vec![
                "stream-url0",
                "stream-urlabc1235678",
                "stream-url123",
                "stream-url0",
                "stream-urlabc1235678",
                "stream-url123",
            ],
        ),
        (
            10,
            vec![
                "stream-url0",
                "stream-urlabc1235678",
                "stream-url123",
                "stream-urlabc1235678",
                "stream-url123",
            ],
        ),
        (
            5,
            vec![
                "stream-url0",
                "stream-urlabc1235678",
                "stream-url123",
                "stream-url0",
                "stream-urlabc1235678",
                "stream-url123",
            ],
        ),
        (
            15,
            vec![
                "stream-url0",
                "stream-urlabc1235678",
                "stream-url123",
                "stream-urlabc1235678",
                "stream-url123",
            ],
        ),
    ];
    let (meta_int, trailing) = (10usize, 5usize);
    let buf_len = meta_int * metas.len() + trailing;
    for (seek_pos, expected_urls) in cases {
        let mut reader = reader_over(&metas, meta_int, trailing);
        let first = reader.read(buf_len).unwrap();
        assert_eq!(first, vec![1u8; buf_len]);
        reader.seek(SeekPos::Start(seek_pos as u64)).unwrap();
        let rest = reader.read(buf_len - seek_pos).unwrap();
        assert_eq!(rest, vec![1u8; buf_len - seek_pos]);
        let events = reader.take_events();
        assert_eq!(titles_or_urls(&events), expected_urls);
    }
}

fn titles_or_urls(events: &[MetadataEvent]) -> Vec<String> {
    urls(events)
}

#[test]
fn seek_from_start_to_future() {
    let metas = [
        "StreamUrl='stream-url0';",
        "StreamUrl='stream-urlabc1235678';",
        "StreamUrl='stream-url123';",
    ];
    let expected = ["stream-url0", "stream-urlabc1235678", "stream-url123"];
    let (meta_int, trailing) = (10usize, 5usize);
    let buf_len = meta_int * metas.len() + trailing;
    for seek_pos in [20usize, 5, 10, 15] {
        let mut reader = reader_over(&metas, meta_int, trailing);
        reader.seek(SeekPos::Start(seek_pos as u64)).unwrap();
        let rest = reader.read(buf_len - seek_pos).unwrap();
        assert_eq!(rest, vec![1u8; buf_len - seek_pos]);
        let events = reader.take_events();
        // frames crossed by the forward seek itself record no event
        let skipped = seek_pos / meta_int;
        assert_eq!(urls(&events), &expected[skipped..]);
    }
}

#[test]
fn seek_to_zero_rereads_same_audio_and_events() {
    let metas = ["StreamTitle='a';", "StreamTitle='b';"];
    let (meta_int, trailing) = (10usize, 3usize);
    let mut reader = reader_over(&metas, meta_int, trailing);
    let first = reader.read_to_end().unwrap();
    let first_events = reader.take_events();
    reader.seek(SeekPos::Start(0)).unwrap();
    let second = reader.read_to_end().unwrap();
    let second_events = reader.take_events();
    assert_eq!(first, second);
    assert_eq!(first_events, second_events);
    assert_eq!(first_events.len(), 2);
}

#[test]
fn seek_backward_beyond_history_fails() {
    let metas = ["StreamTitle='a';", "StreamTitle='b';", "StreamTitle='c';"];
    let (meta_int, trailing) = (10usize, 5usize);
    let data = build_stream(&metas, meta_int, trailing);
    let mut reader = IcyMetadataReader::new(MemorySource::new(data), Some(meta_int))
        .metadata_size_cache(1);
    let buf = reader.read_to_end().unwrap();
    assert_eq!(buf.len(), 35);
    // only one frame size is retained: rewinding across three frames fails,
    // and no audio is silently misread afterwards
    let err = reader.seek(SeekPos::Start(5)).unwrap_err();
    assert_eq!(err, StreamError::InsufficientHistory);
}

#[test]
fn seek_backward_within_history_works() {
    let metas = ["StreamTitle='a';", "StreamTitle='b';", "StreamTitle='c';"];
    let (meta_int, trailing) = (10usize, 5usize);
    let data = build_stream(&metas, meta_int, trailing);
    let mut reader = IcyMetadataReader::new(MemorySource::new(data), Some(meta_int))
        .metadata_size_cache(1);
    let buf = reader.read_to_end().unwrap();
    assert_eq!(buf.len(), 35);
    // rewinding across a single frame fits the retained history
    let pos = reader.seek(SeekPos::Start(25)).unwrap();
    assert_eq!(pos, 25);
    let rest = reader.read_to_end().unwrap();
    assert_eq!(rest, vec![1u8; 10]);
}

#[test]
fn seek_from_end_unsupported() {
    let mut reader = reader_over(&["StreamTitle='a';"], 10, 0);
    let err = reader.seek(SeekPos::End(0)).unwrap_err();
    assert_eq!(err, StreamError::SeekFromEnd);
}

#[test]
fn seek_to_negative_position_fails() {
    let mut reader = reader_over(&["StreamTitle='a';"], 10, 0);
    let err = reader.seek(SeekPos::Current(-1)).unwrap_err();
    assert_eq!(err, StreamError::InvalidPosition);
}

#[test]
fn seek_current_moves_relative() {
    let metas = ["StreamTitle='a';", "StreamTitle='b';"];
    let mut reader = reader_over(&metas, 10, 5);
    let chunk = reader.read(5).unwrap();
    assert_eq!(chunk.len(), 5);
    let pos = reader.seek(SeekPos::Current(10)).unwrap();
    assert_eq!(pos, 15);
    let rest = reader.read_to_end().unwrap();
    assert_eq!(rest, vec![1u8; 10]);
}

#[test]
fn truncated_frame_is_an_error() {
    // one full audio run, a length byte promising 16 payload bytes, but
    // only 4 present
    let mut data = vec![1u8; 10];
    data.push(1);
    data.extend_from_slice(&[b'a', b'b', b'c', b'd']);
    let mut reader = IcyMetadataReader::new(MemorySource::new(data), Some(10));
    let err = reader.read_to_end().unwrap_err();
    assert_eq!(err, StreamError::UnexpectedEof);
}

#[test]
fn invalid_utf8_frame_reports_bytes() {
    let mut data = vec![1u8; 4];
    data.push(1);
    let payload: Vec<u8> = vec![0xff, 0xfe, b'a', b'b'];
    data.extend_from_slice(&payload);
    data.extend(std::iter::repeat(0u8).take(12));
    data.extend_from_slice(&[1u8; 3]);
    let mut reader = IcyMetadataReader::new(MemorySource::new(data), Some(4));
    let buf = reader.read_to_end().unwrap();
    assert_eq!(buf, vec![1u8; 7]);
    let events = reader.take_events();
    assert_eq!(events.len(), 1);
    let mut expected_bytes = payload.clone();
    expected_bytes.extend(std::iter::repeat(0u8).take(12));
    assert_eq!(
        events[0],
        Err(MetadataParseError::InvalidUtf8(expected_bytes))
    );
}

#[test]
fn multibyte_utf8_title_decodes() {
    // a title holding multi-byte UTF-8 text survives decoding intact
    let mut reader = reader_over(&["StreamTitle='caf\u{e9} \u{1f3b5}';"], 6, 2);
    let buf = reader.read_to_end().unwrap();
    assert_eq!(buf, vec![1u8; 8]);
    let events = reader.take_events();
    let md = events[0].as_ref().unwrap();
    assert_eq!(md.stream_title(), Some("caf\u{e9} \u{1f3b5}"));
}

#[test]
fn zero_length_frame_reports_nothing() {
    // a frame whose length byte is zero is skipped without an event
    let mut data = vec![1u8; 5];
    data.push(0);
    data.extend_from_slice(&[1u8; 5]);
    let mut reader = IcyMetadataReader::new(MemorySource::new(data), Some(5));
    let buf = reader.read_to_end().unwrap();
    assert_eq!(buf, vec![1u8; 10]);
    assert!(reader.take_events().is_empty());
}

#[test]
fn no_interval_passes_through() {
    let data = vec![7u8, 8, 9, 10];
    let mut reader = IcyMetadataReader::new(MemorySource::new(data.clone()), None);
    let buf = reader.read_to_end().unwrap();
    assert_eq!(buf, data);
    assert!(reader.events().is_empty());
}

#[test]
fn no_interval_seek_passes_through() {
    let data = vec![7u8, 8, 9, 10];
    let mut reader = IcyMetadataReader::new(MemorySource::new(data), None);
    let pos = reader.seek(SeekPos::Start(2)).unwrap();
    assert_eq!(pos, 2);
    let buf = reader.read_to_end().unwrap();
    assert_eq!(buf, vec![9u8, 10]);
}

#[test]
fn read_of_zero_bytes_reads_nothing() {
    let mut reader = reader_over(&["StreamTitle='a';"], 10, 0);
    let chunk = reader.read(0).unwrap();
    assert!(chunk.is_empty());
    assert!(reader.events().is_empty());
    let rest = reader.read_to_end().unwrap();
    assert_eq!(rest, vec![1u8; 10]);
}

#[test]
fn seek_current_backward_within_history() {
    let metas = ["StreamTitle='a';", "StreamTitle='b';"];
    let mut reader = reader_over(&metas, 10, 5);
    let buf = reader.read_to_end().unwrap();
    assert_eq!(buf.len(), 25);
    let pos = reader.seek(SeekPos::Current(-20)).unwrap();
    assert_eq!(pos, 5);
    let rest = reader.read_to_end().unwrap();
    assert_eq!(rest, vec![1u8; 20]);
    // the two frames are decoded again after the rewind
    let events = reader.take_events();
    assert_eq!(events.len(), 4);
}

#[test]
fn metadata_parse_error_message() {
    let err = MetadataParseError::InvalidUtf8(vec![0xff]);
    assert!(err.message().starts_with("Failed to parse icy metadata block"));
}
