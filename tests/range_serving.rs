use media_gateway::error::GatewayError;
use media_gateway::range::{
    content_range, parse_range, plan_range, read_window, respond, RangeCursor, RangeRequest,
    ServePlan,
};

fn sample(len: usize) -> Vec<u8> {
    (0..len).map(|i| (i * 7 % 251) as u8).collect()
}

#[test]
fn no_header_asks_for_whole_file() {
    assert_eq!(parse_range(None), Ok(RangeRequest::Full));
}

#[test]
fn open_ended_range_parses() {
    assert_eq!(
        parse_range(Some(b"bytes=0-")),
        Ok(RangeRequest::Partial { start: 0, end: None })
    );
    assert_eq!(
        parse_range(Some(b"bytes=12-345")),
        Ok(RangeRequest::Partial { start: 12, end: Some(345) })
    );
}

#[test]
fn malformed_ranges_are_unsatisfiable() {
    for h in [
        &b"bytes=10-5"[..],
        b"bytes=-5",
        b"bytes=",
        b"bytes=5",
        b"bits=0-1",
        b"bytes=1-2-3",
        b"bytes=a-",
        b"bytes=0-1,3-4",
        b"bytes=99999999999999999999-",
    ] {
        assert_eq!(parse_range(Some(h)), Err(GatewayError::RangeUnsatisfiable));
    }
}

#[test]
fn plan_clamps_end_to_file() {
    let p = plan_range(RangeRequest::Partial { start: 50, end: Some(200) }, 100).unwrap();
    assert_eq!(p, ServePlan { partial: true, start: 50, len: 50, total: 100 });
    assert_eq!(p.status(), 206);
}

#[test]
fn plan_rejects_start_at_or_past_end() {
    assert_eq!(
        plan_range(RangeRequest::Partial { start: 100, end: None }, 100),
        Err(GatewayError::RangeUnsatisfiable)
    );
    assert_eq!(
        plan_range(RangeRequest::Partial { start: 0, end: None }, 0),
        Err(GatewayError::RangeUnsatisfiable)
    );
}

#[test]
fn full_plan_is_status_200() {
    let p = plan_range(RangeRequest::Full, 42).unwrap();
    assert_eq!(p, ServePlan { partial: false, start: 0, len: 42, total: 42 });
    assert_eq!(p.status(), 200);
}

#[test]
fn content_range_header_text() {
    let p = ServePlan { partial: true, start: 0, len: 100, total: 100 };
    assert_eq!(content_range(&p), b"bytes 0-99/100".to_vec());
    let p = ServePlan { partial: true, start: 1234, len: 1, total: 98765 };
    assert_eq!(content_range(&p), b"bytes 1234-1234/98765".to_vec());
}

#[test]
fn open_range_from_zero_covers_file() {
    let content = sample(1000);
    let (p, body) = respond(&content, Some(b"bytes=0-"), 64).unwrap();
    assert_eq!(p, ServePlan { partial: true, start: 0, len: 1000, total: 1000 });
    assert_eq!(p.status(), 206);
    assert_eq!(body, content);
}

#[test]
fn range_starting_at_length_is_unsatisfiable() {
    let content = sample(1000);
    assert_eq!(
        respond(&content, Some(b"bytes=1000-"), 64),
        Err(GatewayError::RangeUnsatisfiable)
    );
    assert_eq!(
        respond(&content, Some(b"bytes=10-5"), 64),
        Err(GatewayError::RangeUnsatisfiable)
    );
}

#[test]
fn no_range_serves_whole_file_with_200() {
    let content = sample(777);
    let (p, body) = respond(&content, None, 100).unwrap();
    assert_eq!(p.status(), 200);
    assert_eq!(p.total, 777);
    assert_eq!(body, content);
}

#[test]
fn repeated_requests_give_identical_bodies() {
    let content = sample(5000);
    let (_, a) = respond(&content, Some(b"bytes=100-4099"), 1).unwrap();
    let (_, b) = respond(&content, Some(b"bytes=100-4099"), 333).unwrap();
    let (_, c) = respond(&content, Some(b"bytes=100-4099"), 1 << 20).unwrap();
    assert_eq!(a, b);
    assert_eq!(b, c);
    assert_eq!(a, content[100..4100].to_vec());
}

#[test]
fn disjoint_windows_rebuild_file() {
    let content = sample(1001);
    let cuts = [0usize, 1, 250, 251, 700, 1001];
    let mut joined = Vec::new();
    for w in cuts.windows(2) {
        let h = format!("bytes={}-{}", w[0], w[1] - 1);
        let (p, body) = respond(&content, Some(h.as_bytes()), 97).unwrap();
        assert_eq!(p.start as usize, w[0]);
        assert_eq!(p.len as usize, w[1] - w[0]);
        joined.extend_from_slice(&body);
    }
    assert_eq!(joined, content);
}

#[test]
fn clamped_window_at_end_of_file() {
    let content = sample(10);
    let (p, body) = respond(&content, Some(b"bytes=7-100"), 4).unwrap();
    assert_eq!(p, ServePlan { partial: true, start: 7, len: 3, total: 10 });
    assert_eq!(body, content[7..].to_vec());
}

#[test]
fn cursor_walks_window_in_chunks() {
    let p = ServePlan { partial: true, start: 10, len: 25, total: 100 };
    let mut c = RangeCursor::new(&p);
    let mut reads = Vec::new();
    while let Some((off, n)) = c.next_read(10) {
        reads.push((off, n));
        c.advance(n);
    }
    assert_eq!(reads, vec![(10, 10), (20, 10), (30, 5)]);
    assert_eq!(c.remaining, 0);
}

#[test]
fn read_window_of_empty_file() {
    let p = ServePlan { partial: false, start: 0, len: 0, total: 0 };
    assert!(read_window(&[], &p, 8).is_empty());
}
