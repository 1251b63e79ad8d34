//! HTTP byte ranges: parsing a `Range` header, checking it against the size
//! of a file, the `Content-Range` header, and chunk-wise reading of the
//! served window.
use vstd::prelude::*;
use crate::decimal::{
    digits_value, run_end, decimal, lemma_decimal, lemma_run_end,
    scan_digits, read_digits, push_decimal,
};
use crate::error::GatewayError;

verus! {

/// What a client asked for: the whole file, or one window of it.
#[derive(Debug, Clone, Copy, PartialEq, Eq)]
pub enum RangeRequest {
    Full,
    /// From `start` to `end` inclusive, or to the end of the file.
    Partial { start: u64, end: Option<u64> },
}

/// How a request is served: `len` bytes from `start` of a file of `total` bytes.
#[derive(Debug, Clone, Copy, PartialEq, Eq)]
pub struct ServePlan {
    /// Answered as 206 partial content (else 200 with the whole file).
    pub partial: bool,
    pub start: u64,
    pub len: u64,
    pub total: u64,
}

/// `bytes=`, the unit prefix of a range header.
pub open spec fn range_unit() -> Seq<u8> {
    seq![98u8, 121u8, 116u8, 101u8, 115u8, 61u8]
}

/// `bytes `, the unit prefix of a content-range header.
pub open spec fn content_range_unit() -> Seq<u8> {
    seq![98u8, 121u8, 116u8, 101u8, 115u8, 32u8]
}

/// The request that the text of a range header denotes: `bytes=start-end` or
/// `bytes=start-`, both numbers decimal and within 64 bits, start not past end.
pub open spec fn range_of(h: Seq<u8>) -> Result<RangeRequest, GatewayError> {
    let dash = run_end(h, 6);
    let stop = run_end(h, dash + 1);
    if h.len() < 6 || h.subrange(0, 6) != range_unit() || dash == 6 || dash >= h.len()
        || h[dash] != 45 || stop != h.len() {
        Err(GatewayError::RangeUnsatisfiable)
    } else {
        let start = digits_value(h.subrange(6, dash));
        if start > u64::MAX {
            Err(GatewayError::RangeUnsatisfiable)
        } else if stop == dash + 1 {
            Ok(RangeRequest::Partial { start: start as u64, end: None })
        } else {
            let end = digits_value(h.subrange(dash + 1, stop));
            if end > u64::MAX || start > end {
                Err(GatewayError::RangeUnsatisfiable)
            } else {
                Ok(RangeRequest::Partial { start: start as u64, end: Some(end as u64) })
            }
        }
    }
}

/// The request for an optional range header: none asks for the whole file.
pub open spec fn request_of(h: Option<Seq<u8>>) -> Result<RangeRequest, GatewayError> {
    match h {
        None => Ok(RangeRequest::Full),
        Some(t) => range_of(t),
    }
}

/// The text of a range header for `start` and an optional inclusive `end`.
pub open spec fn range_header(start: nat, end: Option<nat>) -> Seq<u8> {
    range_unit() + decimal(start) + seq![45u8] + match end {
        None => Seq::<u8>::empty(),
        Some(e) => decimal(e),
    }
}

/// How a request is served from a file of `total` bytes. A window that starts
/// past the file fails; an end past the file is clamped to its last byte.
pub open spec fn plan_of(req: RangeRequest, total: u64) -> Result<ServePlan, GatewayError> {
    match req {
        RangeRequest::Full => Ok(ServePlan { partial: false, start: 0, len: total, total }),
        RangeRequest::Partial { start, end } => {
            let last: int = match end {
                None => total - 1,
                Some(e) => if e > total - 1 { total - 1 } else { e as int },
            };
            if start >= total || last < start {
                Err(GatewayError::RangeUnsatisfiable)
            } else {
                Ok(ServePlan { partial: true, start, len: (last - start + 1) as u64, total })
            }
        },
    }
}

/// The bytes that a plan serves out of the file content.
pub open spec fn body_of(content: Seq<u8>, p: ServePlan) -> Seq<u8> {
    content.subrange(p.start as int, p.start + p.len)
}

/// The plan and the body with which content is served for an optional range header.
pub open spec fn served(content: Seq<u8>, h: Option<Seq<u8>>) -> Result<(ServePlan, Seq<u8>), GatewayError> {
    match request_of(h) {
        Err(e) => Err(e),
        Ok(req) => match plan_of(req, content.len() as u64) {
            Err(e) => Err(e),
            Ok(p) => Ok((p, body_of(content, p))),
        },
    }
}

impl ServePlan {
    /// A plan lies within its file, and a partial one serves at least one byte.
    pub open spec fn wf(&self) -> bool {
        &&& self.start + self.len <= self.total
        &&& self.partial ==> self.len >= 1
        &&& !self.partial ==> self.start == 0 && self.len == self.total
    }

    /// The HTTP status of the response: 206 for a window, 200 for the whole file.
    pub fn status(&self) -> (r: u16)
        ensures
            r == (if self.partial { 206u16 } else { 200u16 }),
    {
        if self.partial {
            206
        } else {
            200
        }
    }
}

/// The text of the content-range header of a partial response:
/// `bytes first-last/total`.
pub open spec fn content_range_of(p: ServePlan) -> Seq<u8> {
    content_range_unit() + decimal(p.start as nat) + seq![45u8] + decimal((p.start + p.len - 1) as nat)
        + seq![47u8] + decimal(p.total as nat)
}

fn has_range_unit(h: &[u8]) -> (r: bool)
    ensures
        r == (h@.len() >= 6 && h@.subrange(0, 6) == range_unit()),
{
    if h.len() < 6 {
        return false;
    }
    let r = h[0] == 98 && h[1] == 121 && h[2] == 116 && h[3] == 101 && h[4] == 115 && h[5] == 61;
    proof {
        if r {
            assert(h@.subrange(0, 6) =~= range_unit());
        } else {
            if h@.subrange(0, 6) == range_unit() {
                assert(h@.subrange(0, 6)[0] == h@[0]);
                assert(h@.subrange(0, 6)[1] == h@[1]);
                assert(h@.subrange(0, 6)[2] == h@[2]);
                assert(h@.subrange(0, 6)[3] == h@[3]);
                assert(h@.subrange(0, 6)[4] == h@[4]);
                assert(h@.subrange(0, 6)[5] == h@[5]);
            }
        }
    }
    r
}

/// Parses the text of a range header.
pub fn parse_range_header(h: &[u8]) -> (r: Result<RangeRequest, GatewayError>)
    ensures
        r == range_of(h@),
{
    if !has_range_unit(h) {
        return Err(GatewayError::RangeUnsatisfiable);
    }
    let dash = scan_digits(h, 6);
    if dash == 6 || dash >= h.len() || h[dash] != 45 {
        return Err(GatewayError::RangeUnsatisfiable);
    }
    let stop = scan_digits(h, dash + 1);
    if stop != h.len() {
        return Err(GatewayError::RangeUnsatisfiable);
    }
    let start = match read_digits(h, 6, dash) {
        Some(v) => v,
        None => {
            return Err(GatewayError::RangeUnsatisfiable);
        },
    };
    if stop == dash + 1 {
        return Ok(RangeRequest::Partial { start, end: None });
    }
    match read_digits(h, dash + 1, stop) {
        Some(end) => {
            if start > end {
                Err(GatewayError::RangeUnsatisfiable)
            } else {
                Ok(RangeRequest::Partial { start, end: Some(end) })
            }
        },
        None => Err(GatewayError::RangeUnsatisfiable),
    }
}

/// Parses an optional range header; without one the whole file is asked for.
pub fn parse_range(header: Option<&[u8]>) -> (r: Result<RangeRequest, GatewayError>)
    ensures
        r == request_of(
            match header {
                None => None,
                Some(h) => Some(h@),
            },
        ),
{
    match header {
        None => Ok(RangeRequest::Full),
        Some(h) => parse_range_header(h),
    }
}

/// Checks a request against the size of the file and fixes the served window.
pub fn plan_range(req: RangeRequest, total: u64) -> (r: Result<ServePlan, GatewayError>)
    ensures
        r == plan_of(req, total),
        r is Ok ==> r->Ok_0.wf(),
{
    match req {
        RangeRequest::Full => Ok(ServePlan { partial: false, start: 0, len: total, total }),
        RangeRequest::Partial { start, end } => {
            if start >= total {
                return Err(GatewayError::RangeUnsatisfiable);
            }
            let last: u64 = match end {
                None => total - 1,
                Some(e) => if e > total - 1 {
                    total - 1
                } else {
                    e
                },
            };
            if last < start {
                return Err(GatewayError::RangeUnsatisfiable);
            }
            Ok(ServePlan { partial: true, start, len: last - start + 1, total })
        },
    }
}

/// The content-range header of a partial response.
pub fn content_range(p: &ServePlan) -> (r: Vec<u8>)
    requires
        p.wf(),
        p.partial,
    ensures
        r@ == content_range_of(*p),
{
    let mut out: Vec<u8> = Vec::new();
    out.push(98);
    out.push(121);
    out.push(116);
    out.push(101);
    out.push(115);
    out.push(32);
    assert(out@ =~= content_range_unit());
    push_decimal(p.start, &mut out);
    out.push(45);
    push_decimal(p.start + p.len - 1, &mut out);
    out.push(47);
    push_decimal(p.total, &mut out);
    proof {
        assert(out@ =~= content_range_of(*p));
    }
    out
}

/// The position of one response within its window. Every response owns its
/// cursor: cursors are never shared between requests.
#[derive(Debug)]
pub struct RangeCursor {
    /// Offset in the file of the next byte to serve.
    pub next: u64,
    /// Bytes of the window not yet served.
    pub remaining: u64,
}

impl RangeCursor {
    pub open spec fn wf(&self) -> bool {
        self.next + self.remaining <= u64::MAX
    }

    /// A cursor at the start of the window of a plan.
    pub fn new(p: &ServePlan) -> (r: Self)
        requires
            p.wf(),
        ensures
            r.next == p.start,
            r.remaining == p.len,
            r.wf(),
    {
        RangeCursor { next: p.start, remaining: p.len }
    }

    /// The next read, as an offset and a most number of bytes; `None` once the
    /// window is exhausted, when the file is to be released.
    pub fn next_read(&self, chunk: u64) -> (r: Option<(u64, u64)>)
        requires
            chunk > 0,
        ensures
            match r {
                None => self.remaining == 0,
                Some((off, n)) => self.remaining > 0 && off == self.next && n == (if chunk
                    < self.remaining {
                    chunk
                } else {
                    self.remaining
                }),
            },
    {
        if self.remaining == 0 {
            None
        } else if chunk < self.remaining {
            Some((self.next, chunk))
        } else {
            Some((self.next, self.remaining))
        }
    }

    /// Records that the next `n` bytes of the window were served.
    pub fn advance(&mut self, n: u64)
        requires
            old(self).wf(),
            n <= old(self).remaining,
        ensures
            final(self).next == old(self).next + n,
            final(self).remaining == old(self).remaining - n,
            final(self).wf(),
    {
        self.next = self.next + n;
        self.remaining = self.remaining - n;
    }
}

/// Serves the window of a plan out of `content` in reads of at most `chunk`
/// bytes, as a response streams it out of a file.
pub fn read_window(content: &[u8], p: &ServePlan, chunk: u64) -> (r: Vec<u8>)
    requires
        p.wf(),
        p.total == content@.len(),
        chunk > 0,
    ensures
        r@ == body_of(content@, *p),
{
    let mut cur = RangeCursor::new(p);
    let mut out: Vec<u8> = Vec::new();
    loop
        invariant
            chunk > 0,
            cur.wf(),
            p.start + p.len <= content@.len(),
            cur.next == p.start + out@.len(),
            cur.next + cur.remaining == p.start + p.len,
            out@ == content@.subrange(p.start as int, cur.next as int),
        ensures
            out@ == body_of(content@, *p),
        decreases cur.remaining,
    {
        match cur.next_read(chunk) {
            None => {
                assert(out@ =~= body_of(content@, *p));
                break;
            },
            Some((off, n)) => {
                let mut k: u64 = 0;
                while k < n
                    invariant
                        k <= n,
                        0 < n <= cur.remaining,
                        cur.wf(),
                        off == cur.next,
                        cur.next + cur.remaining == p.start + p.len,
                        off + n <= p.start + p.len,
                        p.start + p.len <= content@.len(),
                        off == p.start + out@.len() - k,
                        out@ == content@.subrange(p.start as int, off + k),
                    decreases n - k,
                {
                    assert(off + k < content@.len());
                    let at: usize = (off + k) as usize;
                    out.push(content[at]);
                    k = k + 1;
                    assert(out@ =~= content@.subrange(p.start as int, off + k));
                }
                cur.advance(n);
            },
        }
    }
    out
}

pub open spec fn header_view(h: Option<&[u8]>) -> Option<Seq<u8>> {
    match h {
        None => None,
        Some(t) => Some(t@),
    }
}

/// Answers a request for `content` with an optional range header: the plan
/// (status, window, total) and the bytes served, read in chunks of `chunk`.
pub fn respond(content: &[u8], header: Option<&[u8]>, chunk: u64) -> (r: Result<
    (ServePlan, Vec<u8>),
    GatewayError,
>)
    requires
        chunk > 0,
        content@.len() <= u64::MAX,
    ensures
        match r {
            Ok((p, b)) => served(content@, header_view(header)) == Ok::<
                (ServePlan, Seq<u8>),
                GatewayError,
            >((p, b@)),
            Err(e) => served(content@, header_view(header)) == Err::<
                (ServePlan, Seq<u8>),
                GatewayError,
            >(e),
        },
{
    let req = match parse_range(header) {
        Ok(q) => q,
        Err(e) => {
            return Err(e);
        },
    };
    let p = match plan_range(req, content.len() as u64) {
        Ok(p) => p,
        Err(e) => {
            return Err(e);
        },
    };
    let body = read_window(content, &p, chunk);
    Ok((p, body))
}

/// What a well-formed range header denotes.
pub proof fn lemma_range_header(start: nat, end: Option<nat>)
    ensures
        range_of(range_header(start, end)) == (if start > u64::MAX {
            Err(GatewayError::RangeUnsatisfiable)
        } else {
            match end {
                None => Ok(RangeRequest::Partial { start: start as u64, end: None }),
                Some(e) => if e > u64::MAX || start > e {
                    Err(GatewayError::RangeUnsatisfiable)
                } else {
                    Ok(RangeRequest::Partial { start: start as u64, end: Some(e as u64) })
                },
            }
        }),
{
    let h = range_header(start, end);
    let a = decimal(start);
    let t = match end {
        None => Seq::<u8>::empty(),
        Some(e) => decimal(e),
    };
    lemma_decimal(start);
    if let Some(e) = end {
        lemma_decimal(e);
    }
    let dash: int = 6 + a.len() as int;
    assert(h.subrange(0, 6) =~= range_unit());
    assert(h.subrange(6, dash) =~= a);
    assert(h[dash] == 45u8);
    lemma_run_end(h, 6, dash);
    assert(h.subrange(dash + 1, h.len() as int) =~= t);
    lemma_run_end(h, dash + 1, h.len() as int);
}

/// A file of length L (at least one byte) is served whole as the window
/// [0, L-1] of L for `bytes=0-`, and whole with status 200 without a range
/// header; `bytes=L-` and a header whose start lies past its end are
/// unsatisfiable.
pub proof fn lemma_range_outcomes(content: Seq<u8>, start: nat, end: nat)
    requires
        1 <= content.len() <= u64::MAX,
        start > end,
    ensures
        served(content, Some(range_header(0, None))) == Ok::<(ServePlan, Seq<u8>), GatewayError>(
            (
                ServePlan {
                    partial: true,
                    start: 0,
                    len: content.len() as u64,
                    total: content.len() as u64,
                },
                content,
            ),
        ),
        served(content, Some(range_header(content.len(), None))) == Err::<
            (ServePlan, Seq<u8>),
            GatewayError,
        >(GatewayError::RangeUnsatisfiable),
        served(content, Some(range_header(start, Some(end)))) == Err::<
            (ServePlan, Seq<u8>),
            GatewayError,
        >(GatewayError::RangeUnsatisfiable),
        served(content, None) == Ok::<(ServePlan, Seq<u8>), GatewayError>(
            (
                ServePlan {
                    partial: false,
                    start: 0,
                    len: content.len() as u64,
                    total: content.len() as u64,
                },
                content,
            ),
        ),
{
    lemma_range_header(0, None);
    lemma_range_header(content.len(), None);
    lemma_range_header(start, Some(end));
    assert(content.subrange(0, content.len() as int) =~= content);
}

/// The header that asks for the bytes from `a` up to, not including, `b`.
pub open spec fn window_header(a: nat, b: nat) -> Seq<u8> {
    range_header(a, Some((b - 1) as nat))
}

/// The bodies served for the windows between consecutive cut points, joined in
/// offset order.
pub open spec fn joined_windows(content: Seq<u8>, cuts: Seq<nat>) -> Seq<u8>
    decreases cuts.len(),
{
    if cuts.len() < 2 {
        Seq::<u8>::empty()
    } else {
        let a = cuts[cuts.len() - 2];
        let b = cuts[cuts.len() - 1];
        joined_windows(content, cuts.drop_last()) + match served(content, Some(window_header(a, b))) {
            Ok((p, body)) => body,
            Err(_) => Seq::<u8>::empty(),
        }
    }
}

pub open spec fn increasing(cuts: Seq<nat>) -> bool {
    forall|i: int| 0 <= i < cuts.len() - 1 ==> #[trigger] cuts[i] < cuts[i + 1]
}

/// A window that lies within the file is served with exactly its bytes.
pub proof fn lemma_window_served(content: Seq<u8>, a: nat, b: nat)
    requires
        a < b <= content.len() <= u64::MAX,
    ensures
        served(content, Some(window_header(a, b))) == Ok::<(ServePlan, Seq<u8>), GatewayError>(
            (
                ServePlan {
                    partial: true,
                    start: a as u64,
                    len: (b - a) as u64,
                    total: content.len() as u64,
                },
                content.subrange(a as int, b as int),
            ),
        ),
{
    lemma_range_header(a, Some((b - 1) as nat));
}

proof fn lemma_joined_prefix(content: Seq<u8>, cuts: Seq<nat>)
    requires
        cuts.len() >= 1,
        cuts[0] == 0,
        increasing(cuts),
        cuts.last() <= content.len() <= u64::MAX,
    ensures
        joined_windows(content, cuts) == content.subrange(0, cuts.last() as int),
    decreases cuts.len(),
{
    if cuts.len() >= 2 {
        let init = cuts.drop_last();
        assert forall|i: int| 0 <= i < init.len() - 1 implies #[trigger] init[i] < init[i + 1] by {
            assert(cuts[i] < cuts[i + 1]);
        }
        assert forall|i: int| 0 <= i < cuts.len() implies #[trigger] cuts[i] <= cuts.last() by {
            lemma_increasing_bound(cuts, i);
        }
        lemma_joined_prefix(content, init);
        let a = cuts[cuts.len() - 2];
        let b = cuts[cuts.len() - 1];
        assert(a < b);
        lemma_window_served(content, a, b);
        assert(content.subrange(0, a as int) + content.subrange(a as int, b as int) =~= content.subrange(
            0,
            b as int,
        ));
    } else {
        assert(content.subrange(0, 0) =~= Seq::<u8>::empty());
    }
}

proof fn lemma_increasing_bound(cuts: Seq<nat>, i: int)
    requires
        increasing(cuts),
        0 <= i < cuts.len(),
    ensures
        cuts[i] <= cuts.last(),
    decreases cuts.len() - i,
{
    if i < cuts.len() - 1 {
        assert(cuts[i] < cuts[i + 1]);
        lemma_increasing_bound(cuts, i + 1);
    }
}

/// Requests for disjoint windows between increasing cut points from 0 to the
/// length of a file each succeed with exactly their window, and their bodies
/// joined in offset order rebuild the file.
pub proof fn lemma_windows_rebuild(content: Seq<u8>, cuts: Seq<nat>)
    requires
        content.len() <= u64::MAX,
        cuts.len() >= 1,
        cuts[0] == 0,
        cuts.last() == content.len(),
        increasing(cuts),
    ensures
        forall|i: int|
            0 <= i < cuts.len() - 1 ==> served(content, Some(#[trigger] window_header(cuts[i], cuts[i + 1])))
                == Ok::<(ServePlan, Seq<u8>), GatewayError>(
                (
                    ServePlan {
                        partial: true,
                        start: cuts[i] as u64,
                        len: (cuts[i + 1] - cuts[i]) as u64,
                        total: content.len() as u64,
                    },
                    content.subrange(cuts[i] as int, cuts[i + 1] as int),
                ),
            ),
        joined_windows(content, cuts) == content,
{
    assert forall|i: int| 0 <= i < cuts.len() - 1 implies served(
        content,
        Some(#[trigger] window_header(cuts[i], cuts[i + 1])),
    ) == Ok::<(ServePlan, Seq<u8>), GatewayError>(
        (
            ServePlan {
                partial: true,
                start: cuts[i] as u64,
                len: (cuts[i + 1] - cuts[i]) as u64,
                total: content.len() as u64,
            },
            content.subrange(cuts[i] as int, cuts[i + 1] as int),
        ),
    ) by {
        assert(cuts[i] < cuts[i + 1]);
        lemma_increasing_bound(cuts, i + 1);
        lemma_window_served(content, cuts[i], cuts[i + 1]);
    }
    lemma_joined_prefix(content, cuts);
    assert(content.subrange(0, content.len() as int) =~= content);
}

} // verus!
