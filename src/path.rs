//! Confinement of client-supplied virtual paths to the storage root.
//!
//! A virtual path is percent-decoded and walked segment by segment: empty
//! and `.` segments vanish, `..` removes the segment before it, and a `..`
//! with nothing left to remove would leave the root, so the path is refused.
//! A leading `/` gives no absolute path: the result is always the root
//! followed by the remaining segments. Once the operating system has made
//! the result canonical, `confine` checks it against the canonical root.
use vstd::prelude::*;
use crate::decimal::is_digit;
use crate::error::GatewayError;
use crate::range::header_view;
use vstd::slice::slice_to_vec;

verus! {

pub open spec fn is_hex(b: u8) -> bool {
    is_digit(b) || (97 <= b && b <= 102) || (65 <= b && b <= 70)
}

pub open spec fn hex_value(b: u8) -> u8 {
    if is_digit(b) {
        (b - 48) as u8
    } else if 97 <= b && b <= 102 {
        (b - 87) as u8
    } else {
        (b - 55) as u8
    }
}

/// The bytes that percent-encoded text denotes; `None` when a `%` is not
/// followed by two hex digits.
pub open spec fn percent_decoded(s: Seq<u8>) -> Option<Seq<u8>>
    decreases s.len(),
{
    if s.len() == 0 {
        Some(Seq::<u8>::empty())
    } else if s[0] == 37 {
        if s.len() >= 3 && is_hex(s[1]) && is_hex(s[2]) {
            match percent_decoded(s.subrange(3, s.len() as int)) {
                None => None,
                Some(r) => Some(seq![(hex_value(s[1]) * 16 + hex_value(s[2])) as u8] + r),
            }
        } else {
            None
        }
    } else {
        match percent_decoded(s.subrange(1, s.len() as int)) {
            None => None,
            Some(r) => Some(seq![s[0]] + r),
        }
    }
}

/// A segment that names an entry: not empty, not `.` or `..`, without `/`.
pub open spec fn normal_segment(seg: Seq<u8>) -> bool {
    &&& seg.len() > 0
    &&& seg != seq![46u8]
    &&& seg != seq![46u8, 46u8]
    &&& forall|i: int| 0 <= i < seg.len() ==> #[trigger] seg[i] != 47
}

pub open spec fn all_normal(segs: Seq<Seq<u8>>) -> bool {
    forall|i: int| 0 <= i < segs.len() ==> normal_segment(#[trigger] segs[i])
}

/// The stack of segments after one more segment: `None` when a `..` finds
/// the stack empty.
pub open spec fn step_segment(stack: Seq<Seq<u8>>, seg: Seq<u8>) -> Option<Seq<Seq<u8>>> {
    if seg.len() == 0 || seg == seq![46u8] {
        Some(stack)
    } else if seg == seq![46u8, 46u8] {
        if stack.len() == 0 {
            None
        } else {
            Some(stack.drop_last())
        }
    } else {
        Some(stack.push(seg))
    }
}

/// The stack of finished segments and the segment in progress after the bytes of `p`.
pub open spec fn walk(p: Seq<u8>) -> Option<(Seq<Seq<u8>>, Seq<u8>)>
    decreases p.len(),
{
    if p.len() == 0 {
        Some((Seq::<Seq<u8>>::empty(), Seq::<u8>::empty()))
    } else {
        match walk(p.drop_last()) {
            None => None,
            Some((stack, cur)) => if p.last() == 47 {
                match step_segment(stack, cur) {
                    None => None,
                    Some(next) => Some((next, Seq::<u8>::empty())),
                }
            } else {
                Some((stack, cur.push(p.last())))
            },
        }
    }
}

/// The segments that a decoded path keeps below the root.
pub open spec fn segments_of(p: Seq<u8>) -> Option<Seq<Seq<u8>>> {
    match walk(p) {
        None => None,
        Some((stack, cur)) => step_segment(stack, cur),
    }
}

/// The root followed by each segment, each after a `/`.
pub open spec fn join_under(root: Seq<u8>, segs: Seq<Seq<u8>>) -> Seq<u8>
    decreases segs.len(),
{
    if segs.len() == 0 {
        root
    } else {
        join_under(root, segs.drop_last()) + seq![47u8] + segs.last()
    }
}

/// Where an optional encoded virtual path leads below `root`; no path is the
/// root itself.
pub open spec fn resolved(encoded: Option<Seq<u8>>, root: Seq<u8>) -> Result<Seq<u8>, GatewayError> {
    match encoded {
        None => Ok(root),
        Some(e) => match percent_decoded(e) {
            None => Err(GatewayError::BadRequest),
            Some(d) => match segments_of(d) {
                None => Err(GatewayError::BadRequest),
                Some(segs) => Ok(join_under(root, segs)),
            },
        },
    }
}

/// `target` is `root` or lies below it.
pub open spec fn within(root: Seq<u8>, target: Seq<u8>) -> bool {
    &&& root.len() <= target.len()
    &&& target.subrange(0, root.len() as int) == root
    &&& (target.len() == root.len() || target[root.len() as int] == 47 || (root.len() > 0
        && root.last() == 47))
}

/// `target` is `root` followed by normal segments.
pub open spec fn descends(root: Seq<u8>, target: Seq<u8>) -> bool {
    exists|segs: Seq<Seq<u8>>| all_normal(segs) && target == join_under(root, segs)
}

fn hex_value_byte(b: u8) -> (r: Option<u8>)
    ensures
        match r {
            Some(v) => is_hex(b) && v == hex_value(b) && v < 16,
            None => !is_hex(b),
        },
{
    if 48 <= b && b <= 57 {
        Some(b - 48)
    } else if 97 <= b && b <= 102 {
        Some(b - 87)
    } else if 65 <= b && b <= 70 {
        Some(b - 55)
    } else {
        None
    }
}

/// Percent-decodes text; `None` when a `%` is not followed by two hex digits.
pub fn percent_decode(s: &[u8]) -> (r: Option<Vec<u8>>)
    ensures
        match r {
            Some(v) => percent_decoded(s@) == Some(v@),
            None => percent_decoded(s@) is None,
        },
{
    let mut out: Vec<u8> = Vec::new();
    let mut i: usize = 0;
    let n = s.len();
    assert(s@.subrange(0, n as int) =~= s@);
    while i < n
        invariant
            n == s@.len(),
            i <= n,
            percent_decoded(s@) == match percent_decoded(s@.subrange(i as int, n as int)) {
                None => None,
                Some(t) => Some(out@ + t),
            },
        decreases n - i,
    {
        let rest = Ghost(s@.subrange(i as int, n as int));
        if s[i] == 37 {
            if n - i < 3 {
                return None;
            }
            let hi = hex_value_byte(s[i + 1]);
            let lo = hex_value_byte(s[i + 2]);
            match (hi, lo) {
                (Some(h), Some(l)) => {
                    let b: u8 = h * 16 + l;
                    proof {
                        assert(rest@[1] == s@[i + 1]);
                        assert(rest@[2] == s@[i + 2]);
                        assert(rest@.subrange(3, rest@.len() as int) =~= s@.subrange(i + 3, n as int));
                        let tail = percent_decoded(s@.subrange(i + 3, n as int));
                        if let Some(t) = tail {
                            assert(out@.push(b) + t =~= out@ + (seq![b] + t));
                        }
                    }
                    out.push(b);
                    i = i + 3;
                },
                _ => {
                    return None;
                },
            }
        } else {
            let b = s[i];
            proof {
                assert(rest@[0] == b);
                assert(rest@.subrange(1, rest@.len() as int) =~= s@.subrange(i + 1, n as int));
                let tail = percent_decoded(s@.subrange(i + 1, n as int));
                if let Some(t) = tail {
                    assert(out@.push(b) + t =~= out@ + (seq![b] + t));
                }
            }
            out.push(b);
            i = i + 1;
        }
    }
    assert(out@ + Seq::<u8>::empty() =~= out@);
    Some(out)
}

pub open spec fn views(v: Seq<Vec<u8>>) -> Seq<Seq<u8>> {
    v.map_values(|x: Vec<u8>| x@)
}

fn is_dot(seg: &Vec<u8>) -> (r: bool)
    ensures
        r == (seg@ == seq![46u8]),
{
    let r = seg.len() == 1 && seg[0] == 46;
    proof {
        if r {
            assert(seg@ =~= seq![46u8]);
        }
    }
    r
}

fn is_dot_dot(seg: &Vec<u8>) -> (r: bool)
    ensures
        r == (seg@ == seq![46u8, 46u8]),
{
    let r = seg.len() == 2 && seg[0] == 46 && seg[1] == 46;
    proof {
        if r {
            assert(seg@ =~= seq![46u8, 46u8]);
        }
    }
    r
}

/// Applies one finished segment to the stack; `false` when it would leave the root.
fn step(stack: &mut Vec<Vec<u8>>, seg: Vec<u8>) -> (ok: bool)
    ensures
        match step_segment(views(old(stack)@), seg@) {
            None => !ok,
            Some(next) => ok && views(final(stack)@) == next,
        },
{
    if seg.len() == 0 || is_dot(&seg) {
        return true;
    }
    if is_dot_dot(&seg) {
        if stack.len() == 0 {
            return false;
        }
        let _ = stack.pop();
        assert(views(stack@) =~= views(old(stack)@).drop_last());
        return true;
    }
    let ghost seg_view = seg@;
    stack.push(seg);
    assert(views(stack@) =~= views(old(stack)@).push(seg_view));
    true
}

fn append_bytes(out: &mut Vec<u8>, v: &Vec<u8>)
    ensures
        final(out)@ == old(out)@ + v@,
{
    let mut i: usize = 0;
    while i < v.len()
        invariant
            i <= v@.len(),
            out@ == old(out)@ + v@.subrange(0, i as int),
        decreases v@.len() - i,
    {
        out.push(v[i]);
        i = i + 1;
        assert(out@ =~= old(out)@ + v@.subrange(0, i as int));
    }
    assert(v@.subrange(0, i as int) =~= v@);
}

proof fn lemma_walk_fails_on(p: Seq<u8>, i: int, j: int)
    requires
        0 <= i <= j <= p.len(),
        walk(p.subrange(0, i)) is None,
    ensures
        walk(p.subrange(0, j)) is None,
    decreases j - i,
{
    if j > i {
        lemma_walk_fails_on(p, i, j - 1);
        assert(p.subrange(0, j).drop_last() =~= p.subrange(0, j - 1));
    }
}

/// Resolves an optional percent-encoded virtual path below `root`: the root
/// followed by the segments that the path keeps, or `BadRequest` when the
/// encoding is invalid or a `..` would leave the root.
pub fn resolve(encoded: Option<&[u8]>, root: &[u8]) -> (r: Result<Vec<u8>, GatewayError>)
    ensures
        match r {
            Ok(v) => resolved(header_view(encoded), root@) == Ok::<Seq<u8>, GatewayError>(v@),
            Err(e) => resolved(header_view(encoded), root@) == Err::<Seq<u8>, GatewayError>(e),
        },
{
    let mut out: Vec<u8> = slice_to_vec(root);
    let e = match encoded {
        None => {
            return Ok(out);
        },
        Some(e) => e,
    };
    let d = match percent_decode(e) {
        None => {
            return Err(GatewayError::BadRequest);
        },
        Some(d) => d,
    };
    let mut stack: Vec<Vec<u8>> = Vec::new();
    let mut cur: Vec<u8> = Vec::new();
    let mut i: usize = 0;
    assert(views(stack@) =~= Seq::<Seq<u8>>::empty());
    assert(d@.subrange(0, 0) =~= Seq::<u8>::empty());
    while i < d.len()
        invariant
            i <= d@.len(),
            header_view(encoded) == Some(e@),
            percent_decoded(e@) == Some(d@),
            out@ == root@,
            walk(d@.subrange(0, i as int)) == Some((views(stack@), cur@)),
        decreases d@.len() - i,
    {
        assert(d@.subrange(0, i + 1).drop_last() =~= d@.subrange(0, i as int));
        let ghost before = (views(stack@), cur@);
        if d[i] == 47 {
            let seg = cur;
            cur = Vec::new();
            if !step(&mut stack, seg) {
                proof {
                    assert(d@.subrange(0, i + 1).last() == 47u8);
                    assert(step_segment(before.0, before.1) is None);
                    assert(walk(d@.subrange(0, i + 1)) is None);
                    lemma_walk_fails_on(d@, i + 1, d@.len() as int);
                    assert(d@.subrange(0, d@.len() as int) =~= d@);
                    assert(walk(d@) is None);
                    assert(segments_of(d@) is None);
                    assert(header_view(encoded) == Some(e@));
                }
                return Err(GatewayError::BadRequest);
            }
        } else {
            cur.push(d[i]);
        }
        i = i + 1;
    }
    assert(d@.subrange(0, i as int) =~= d@);
    if !step(&mut stack, cur) {
        return Err(GatewayError::BadRequest);
    }
    let mut k: usize = 0;
    assert(views(stack@).subrange(0, 0) =~= Seq::<Seq<u8>>::empty());
    while k < stack.len()
        invariant
            k <= stack@.len(),
            out@ == join_under(root@, views(stack@).subrange(0, k as int)),
        decreases stack@.len() - k,
    {
        out.push(47);
        append_bytes(&mut out, &stack[k]);
        proof {
            let g = views(stack@).subrange(0, k + 1);
            assert(g.drop_last() =~= views(stack@).subrange(0, k as int));
            assert(g.last() == stack@[k as int]@);
        }
        k = k + 1;
    }
    assert(views(stack@).subrange(0, k as int) =~= views(stack@));
    Ok(out)
}

/// Checks a canonical target path against the canonical storage root:
/// `BadRequest` unless the target is the root or lies below it.
pub fn confine(root: &[u8], target: &[u8]) -> (r: Result<(), GatewayError>)
    ensures
        r is Ok <==> within(root@, target@),
        r is Err ==> r == Err::<(), GatewayError>(GatewayError::BadRequest),
{
    if target.len() < root.len() {
        return Err(GatewayError::BadRequest);
    }
    let mut i: usize = 0;
    while i < root.len()
        invariant
            i <= root@.len() <= target@.len(),
            forall|j: int| 0 <= j < i ==> target@[j] == #[trigger] root@[j],
        decreases root@.len() - i,
    {
        if target[i] != root[i] {
            assert(target@.subrange(0, root@.len() as int)[i as int] != root@[i as int]);
            return Err(GatewayError::BadRequest);
        }
        i = i + 1;
    }
    assert(target@.subrange(0, root@.len() as int) =~= root@);
    let n = root.len();
    if target.len() == n || target[n] == 47 || (n > 0 && root[n - 1] == 47) {
        Ok(())
    } else {
        Err(GatewayError::BadRequest)
    }
}

proof fn lemma_step_normal(stack: Seq<Seq<u8>>, seg: Seq<u8>)
    requires
        all_normal(stack),
        forall|i: int| 0 <= i < seg.len() ==> #[trigger] seg[i] != 47,
    ensures
        match step_segment(stack, seg) {
            None => true,
            Some(next) => all_normal(next),
        },
{
    match step_segment(stack, seg) {
        None => {},
        Some(next) => {
            assert forall|i: int| 0 <= i < next.len() implies normal_segment(#[trigger] next[i]) by {
                if i < stack.len() {
                    assert(next[i] == stack[i]);
                }
            }
        },
    }
}

proof fn lemma_walk_normal(p: Seq<u8>)
    ensures
        match walk(p) {
            None => true,
            Some((stack, cur)) => all_normal(stack) && forall|i: int|
                0 <= i < cur.len() ==> #[trigger] cur[i] != 47,
        },
    decreases p.len(),
{
    if p.len() > 0 {
        lemma_walk_normal(p.drop_last());
        match walk(p.drop_last()) {
            None => {},
            Some((stack, cur)) => {
                if p.last() == 47 {
                    lemma_step_normal(stack, cur);
                } else {
                    let c2 = cur.push(p.last());
                    assert forall|i: int| 0 <= i < c2.len() implies #[trigger] c2[i] != 47 by {
                        if i < cur.len() {
                            assert(c2[i] == cur[i]);
                        }
                    }
                }
            },
        }
    }
}

proof fn lemma_join_under_within(root: Seq<u8>, segs: Seq<Seq<u8>>)
    ensures
        root.len() <= join_under(root, segs).len(),
        join_under(root, segs).subrange(0, root.len() as int) == root,
        segs.len() > 0 ==> join_under(root, segs)[root.len() as int] == 47,
    decreases segs.len(),
{
    if segs.len() > 0 {
        let prev = join_under(root, segs.drop_last());
        lemma_join_under_within(root, segs.drop_last());
        let j = join_under(root, segs);
        assert(j.subrange(0, root.len() as int) =~= prev.subrange(0, root.len() as int));
        if segs.len() > 1 {
            assert(j[root.len() as int] == prev[root.len() as int]);
        } else {
            assert(segs.drop_last() =~= Seq::<Seq<u8>>::empty());
        }
    } else {
        assert(root.subrange(0, root.len() as int) =~= root);
    }
}

/// Whatever virtual path a client sends, with any number of `..` segments
/// or a leading `/`, resolving it below `root` either fails with
/// `BadRequest` or yields the root followed by normal segments, a path that
/// lies within the root.
pub proof fn lemma_resolve_confined(encoded: Option<Seq<u8>>, root: Seq<u8>)
    ensures
        match resolved(encoded, root) {
            Ok(r) => descends(root, r) && within(root, r),
            Err(e) => e == GatewayError::BadRequest,
        },
{
    match resolved(encoded, root) {
        Ok(r) => {
            match encoded {
                None => {
                    assert(all_normal(Seq::<Seq<u8>>::empty()));
                    assert(r == join_under(root, Seq::<Seq<u8>>::empty()));
                    lemma_join_under_within(root, Seq::<Seq<u8>>::empty());
                },
                Some(e) => {
                    let d = percent_decoded(e)->Some_0;
                    lemma_walk_normal(d);
                    let (stack, cur) = walk(d)->Some_0;
                    lemma_step_normal(stack, cur);
                    let segs = segments_of(d)->Some_0;
                    assert(all_normal(segs));
                    lemma_join_under_within(root, segs);
                },
            }
        },
        Err(e) => {},
    }
}

} // verus!
