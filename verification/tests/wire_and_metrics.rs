//! Frames, responses and counters.
use forgefs::metrics::{TimingCounter, TimingSnapshot};
use forgefs::protocol::{
    decode_frame_len, read_frame, read_frame_body, read_frame_len, read_frame_len_after,
    write_frame, Response, MAX_FRAME_BYTES,
};
use forgefs::types::Error;

#[test]
fn split_read_matches_whole_frame_read() {
    let value = std::collections::BTreeMap::from([("a", 1)]);
    let mut framed = Vec::new();
    write_frame(&mut framed, &serde_json::to_vec(&value).unwrap());

    let mut whole = &framed[..];
    let body = read_frame(&mut whole).unwrap();

    let mut split = &framed[1..];
    let n = read_frame_len_after(&mut split, framed[0]).unwrap();
    assert_eq!(read_frame_body(&mut split, n).unwrap(), body);
}

#[test]
fn oversized_length_prefix_is_rejected_before_allocating() {
    let n = (MAX_FRAME_BYTES + 1) as u32;
    let prefix = n.to_be_bytes();
    let mut bytes = &prefix[..];
    assert!(read_frame_len(&mut bytes).is_err());

    let split = n.to_be_bytes();
    let mut rest = &split[1..];
    assert!(read_frame_len_after(&mut rest, split[0]).is_err());
}

#[test]
fn a_frame_is_its_length_and_its_body() {
    let mut framed = Vec::new();
    write_frame(&mut framed, b"abc");
    assert_eq!(framed, vec![0, 0, 0, 3, b'a', b'b', b'c']);
    write_frame(&mut framed, b"");
    let mut input = &framed[..];
    assert_eq!(read_frame(&mut input).unwrap(), b"abc");
    assert_eq!(read_frame(&mut input).unwrap(), b"");
    assert!(input.is_empty());
    assert!(matches!(read_frame(&mut input), Err(Error::Io(_))));
}

#[test]
fn the_cap_itself_is_accepted() {
    let n = MAX_FRAME_BYTES as u32;
    assert_eq!(decode_frame_len(n.to_be_bytes()).unwrap(), MAX_FRAME_BYTES);
    assert!(matches!(decode_frame_len((n + 1).to_be_bytes()), Err(Error::Invalid(_))));
}

#[test]
fn a_frame_that_ends_early_is_an_io_error() {
    let mut short = &[0u8, 0, 0, 4, 1, 2][..];
    assert!(matches!(read_frame(&mut short), Err(Error::Io(_))));
    let mut header = &[0u8, 0][..];
    assert!(matches!(read_frame_len(&mut header), Err(Error::Io(_))));
}

#[test]
fn responses_carry_a_body_or_an_error() {
    let ok: Response<u32> = Response::ok(7, 12);
    assert_eq!((ok.v, ok.id, ok.ok, ok.body), (1, 7, true, Some(12)));
    assert!(ok.err.is_none());
    let failed: Response<u32> = Response::err(8, &Error::NotFound("ref main".to_string()));
    assert_eq!((failed.v, failed.id, failed.ok, failed.body), (1, 8, false, None));
    let err = failed.err.unwrap();
    assert_eq!(err.code, "not_found");
    assert_eq!(err.msg, "not found: ref main");
}

#[test]
fn aggregates_before_converting_to_microseconds() {
    let mut timing = TimingCounter::default();
    timing.observe(400);
    timing.observe(600);

    assert_eq!(
        timing.snapshot(),
        TimingSnapshot {
            count: 2,
            total_us: 1,
        }
    );
}

#[test]
fn aggregation_saturates_instead_of_wrapping() {
    let mut timing = TimingCounter::default();
    timing.total_ns = u64::MAX - 4;
    timing.count = u64::MAX;
    timing.observe(10);

    assert_eq!(timing.count, u64::MAX);
    assert_eq!(timing.total_ns, u64::MAX);
}

#[test]
fn a_sample_beyond_the_counter_saturates_it() {
    let mut timing = TimingCounter::default();
    timing.observe(u128::MAX);
    assert_eq!(timing.total_ns, u64::MAX);
    assert_eq!(timing.count, 1);
}
