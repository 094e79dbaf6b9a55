//! Joins line fragments that share endpoints into longer polylines.
//!
//! Fragments are edges of a graph whose vertices are their endpoints; because
//! coordinates live on the integer grid, two endpoints match exactly when
//! they are the same grid point (the grid is the quantization that makes
//! floating-point-almost-equal endpoints compare as identical). Each round
//! finds a heaviest trail — a chain of pairwise distinct fragments in which
//! consecutive fragments share an endpoint, maximizing total arc length —
//! merges it into one polyline, and repeats until no two fragments share an
//! endpoint.

use vstd::prelude::*;
use vstd::seq_lib::*;
use vstd::set_lib::*;
use crate::geom::{Pt, Polyline, polyline_wf, pts_bounded, in_bounds, polyline_len_spec,
    polyline_len, COORD_LIMIT, MAX_PTS};

verus! {

/// The views of a list of polylines, as a sequence of point sequences.
pub open spec fn views(v: Seq<Polyline>) -> Seq<Seq<Pt>> {
    v.map_values(|l: Polyline| l@)
}

/// Sum of the point counts of the first `i` fragments.
pub open spec fn pts_total_to(ls: Seq<Seq<Pt>>, i: int) -> int
    decreases i,
{
    if i <= 0 {
        0
    } else {
        pts_total_to(ls, i - 1) + ls[i - 1].len()
    }
}

/// Sum of the point counts of all fragments.
pub open spec fn pts_total(ls: Seq<Seq<Pt>>) -> int {
    pts_total_to(ls, ls.len() as int)
}

/// A well-formed working set: every fragment is a well-formed polyline and
/// the whole set carries at most `MAX_PTS` points, so every merge result is
/// again a well-formed polyline.
pub open spec fn frags_wf(ls: Seq<Seq<Pt>>) -> bool {
    &&& forall|i: int| 0 <= i < ls.len() ==> polyline_wf(#[trigger] ls[i])
    &&& pts_total(ls) <= MAX_PTS
}

/// One step of a trail: a fragment index plus whether it is walked reversed.
/// The walk enters the fragment at its head and leaves at its tail.
pub open spec fn step_head(ls: Seq<Seq<Pt>>, st: (usize, bool)) -> Pt {
    if st.1 {
        ls[st.0 as int].last()
    } else {
        ls[st.0 as int][0]
    }
}

pub open spec fn step_tail(ls: Seq<Seq<Pt>>, st: (usize, bool)) -> Pt {
    if st.1 {
        ls[st.0 as int][0]
    } else {
        ls[st.0 as int].last()
    }
}

/// A trail: pairwise distinct fragments, each entered at the point where the
/// previous one was left.
pub open spec fn path_ok(ls: Seq<Seq<Pt>>, p: Seq<(usize, bool)>) -> bool {
    &&& forall|k: int| 0 <= k < p.len() ==> (#[trigger] p[k]).0 < ls.len()
    &&& forall|j: int, k: int| #![trigger p[j], p[k]] 0 <= j < k < p.len() ==> p[j].0 != p[k].0
    &&& forall|k: int| 0 <= k < p.len() - 1 ==> step_tail(ls, #[trigger] p[k]) == step_head(
        ls,
        p[k + 1],
    )
}

/// Total arc length of the fragments on a trail.
pub open spec fn path_weight(ls: Seq<Seq<Pt>>, p: Seq<(usize, bool)>) -> int
    decreases p.len(),
{
    if p.len() == 0 {
        0
    } else {
        path_weight(ls, p.drop_last()) + polyline_len_spec(ls[p.last().0 as int])
    }
}

/// `q` continues `p`: it begins with exactly the steps of `p`.
pub open spec fn extends(q: Seq<(usize, bool)>, p: Seq<(usize, bool)>) -> bool {
    q.len() >= p.len() && q.subrange(0, p.len() as int) == p
}

/// Two distinct fragments share an endpoint on the grid.
pub open spec fn joinable_pair(ls: Seq<Seq<Pt>>, i: int, j: int) -> bool {
    &&& 0 <= i < ls.len()
    &&& 0 <= j < ls.len()
    &&& i != j
    &&& {
        ||| ls[i][0] == ls[j][0]
        ||| ls[i][0] == ls[j].last()
        ||| ls[i].last() == ls[j][0]
        ||| ls[i].last() == ls[j].last()
    }
}

/// Some two distinct fragments share an endpoint, so a joining round has
/// work to do.
pub open spec fn joinable(ls: Seq<Seq<Pt>>) -> bool {
    exists|i: int, j: int| joinable_pair(ls, i, j)
}

/// Whether fragment index `j` occurs on the trail.
pub open spec fn on_path(p: Seq<(usize, bool)>, j: int) -> bool {
    exists|k: int| 0 <= k < p.len() && (#[trigger] p[k]).0 == j
}

/// Orientation code of one step, for enumerating steps in a fixed order.
pub open spec fn step_code(st: (usize, bool)) -> int {
    2 * st.0 + if st.1 {
        1int
    } else {
        0int
    }
}

/// A trail's fragments are pairwise distinct, so a trail is never longer
/// than the working set.
pub proof fn lemma_path_ok_len(ls: Seq<Seq<Pt>>, p: Seq<(usize, bool)>)
    requires
        path_ok(ls, p),
    ensures
        p.len() <= ls.len(),
{
    let idxs = p.map_values(|st: (usize, bool)| st.0 as int);
    assert forall|j: int, k: int| j != k && 0 <= j < idxs.len() && 0 <= k < idxs.len()
        implies idxs[j] != idxs[k] by {
        assert(p[j].0 < ls.len());
        assert(p[k].0 < ls.len());
    }
    assert(idxs.no_duplicates());
    idxs.unique_seq_to_set();
    let range = set_int_range(0, ls.len() as int);
    lemma_int_range(0, ls.len() as int);
    assert forall|x: int| idxs.to_set().contains(x) implies range.contains(x) by {
        let k = choose|k: int| 0 <= k < idxs.len() && idxs[k] == x;
        assert(p[k].0 < ls.len());
    }
    lemma_len_subset(idxs.to_set(), range);
}

/// Every fragment holds at least two points, so the working set has at most
/// half as many fragments as points.
pub proof fn lemma_frag_count(ls: Seq<Seq<Pt>>)
    requires
        forall|i: int| 0 <= i < ls.len() ==> polyline_wf(#[trigger] ls[i]),
    ensures
        pts_total(ls) >= 2 * ls.len(),
    decreases ls.len(),
{
    lemma_pts_total_to_parts(ls, ls.len() as int);
}

/// `pts_total_to` is monotone and each summand is at least two points for a
/// well-formed working set.
pub proof fn lemma_pts_total_to_parts(ls: Seq<Seq<Pt>>, i: int)
    requires
        forall|k: int| 0 <= k < ls.len() ==> polyline_wf(#[trigger] ls[k]),
        i <= ls.len(),
    ensures
        pts_total_to(ls, i) >= 2 * i,
    decreases i,
{
    if i > 0 {
        lemma_pts_total_to_parts(ls, i - 1);
    }
}

/// A trail of two steps exists exactly when two distinct fragments share an
/// endpoint.
pub proof fn lemma_joinable_to_path(ls: Seq<Seq<Pt>>)
    requires
        joinable(ls),
        ls.len() <= usize::MAX,
        forall|i: int| 0 <= i < ls.len() ==> polyline_wf(#[trigger] ls[i]),
    ensures
        exists|q: Seq<(usize, bool)>| path_ok(ls, q) && q.len() == 2,
{
    let (i, j) = choose|i: int, j: int| joinable_pair(ls, i, j);
    let iu = i as usize;
    let ju = j as usize;
    assert(iu as int == i && ju as int == j);
    if ls[i].last() == ls[j][0] {
        let q = seq![(iu, false), (ju, false)];
        assert(step_tail(ls, q[0]) == step_head(ls, q[1]));
        assert(path_ok(ls, q));
    } else if ls[i].last() == ls[j].last() {
        let q = seq![(iu, false), (ju, true)];
        assert(step_tail(ls, q[0]) == step_head(ls, q[1]));
        assert(path_ok(ls, q));
    } else if ls[i][0] == ls[j][0] {
        let q = seq![(iu, true), (ju, false)];
        assert(step_tail(ls, q[0]) == step_head(ls, q[1]));
        assert(path_ok(ls, q));
    } else {
        let q = seq![(iu, true), (ju, true)];
        assert(step_tail(ls, q[0]) == step_head(ls, q[1]));
        assert(path_ok(ls, q));
    }
}

/// Conversely, the first two steps of any trail witness a joinable pair.
pub proof fn lemma_path_to_joinable(ls: Seq<Seq<Pt>>, q: Seq<(usize, bool)>)
    requires
        path_ok(ls, q),
        q.len() >= 2,
    ensures
        joinable(ls),
{
    assert(step_tail(ls, q[0]) == step_head(ls, q[1]));
    assert(joinable_pair(ls, q[0].0 as int, q[1].0 as int));
}

/// Upper bound on one fragment's arc length (65536 points of at most 2^32
/// millimeters per segment).
pub const FRAG_LEN_MAX: u64 = 0x1_0000_0000_0000;

pub proof fn lemma_pts_bounded_widen(s: Seq<Pt>, m1: i64, m2: i64)
    requires
        pts_bounded(s, m1),
        m1 <= m2,
    ensures
        pts_bounded(s, m2),
{
    assert forall|i: int| 0 <= i < s.len() implies in_bounds(#[trigger] s[i], m2) by {
        assert(in_bounds(s[i], m1));
    }
}

pub proof fn lemma_polyline_len_spec_bound(s: Seq<Pt>)
    requires
        polyline_wf(s),
    ensures
        0 <= polyline_len_spec(s) <= FRAG_LEN_MAX,
{
    lemma_pts_bounded_widen(s, COORD_LIMIT, crate::geom::EXT_LIMIT);
    crate::geom::lemma_arc_len_to_bounds(s, s.len() - 1);
}

fn clone_path(p: &Vec<(usize, bool)>) -> (r: Vec<(usize, bool)>)
    ensures
        r@ == p@,
{
    let mut v: Vec<(usize, bool)> = Vec::new();
    let mut i: usize = 0;
    while i < p.len()
        invariant
            i <= p.len(),
            v@ == p@.subrange(0, i as int),
        decreases p.len() - i,
    {
        v.push(p[i]);
        i += 1;
    }
    proof {
        assert(v@ =~= p@);
    }
    v
}

fn contains_idx(path: &Vec<(usize, bool)>, j: usize) -> (r: bool)
    ensures
        r == on_path(path@, j as int),
{
    let mut k: usize = 0;
    while k < path.len()
        invariant
            k <= path.len(),
            forall|m: int| 0 <= m < k ==> (#[trigger] path@[m]).0 != j,
        decreases path.len() - k,
    {
        if path[k].0 == j {
            return true;
        }
        k += 1;
    }
    false
}

fn step_head_exec(lines: &Vec<Polyline>, st: (usize, bool)) -> (r: Pt)
    requires
        st.0 < lines@.len(),
        views(lines@)[st.0 as int].len() >= 2,
    ensures
        r == step_head(views(lines@), st),
{
    let l = &lines[st.0];
    proof {
        assert(views(lines@)[st.0 as int] == l@);
    }
    if st.1 {
        l.pts[l.pts.len() - 1]
    } else {
        l.pts[0]
    }
}

fn step_tail_exec(lines: &Vec<Polyline>, st: (usize, bool)) -> (r: Pt)
    requires
        st.0 < lines@.len(),
        views(lines@)[st.0 as int].len() >= 2,
    ensures
        r == step_tail(views(lines@), st),
{
    let l = &lines[st.0];
    proof {
        assert(views(lines@)[st.0 as int] == l@);
    }
    if st.1 {
        l.pts[0]
    } else {
        l.pts[l.pts.len() - 1]
    }
}

/// Total arc length of the fragments on a trail, in millimeters.
fn path_weight_exec(lines: &Vec<Polyline>, path: &Vec<(usize, bool)>) -> (w: u64)
    requires
        frags_wf(views(lines@)),
        forall|k: int| 0 <= k < path@.len() ==> (#[trigger] path@[k]).0 < lines@.len(),
        path@.len() <= lines@.len(),
    ensures
        w == path_weight(views(lines@), path@),
{
    let ghost ls = views(lines@);
    proof {
        lemma_frag_count(ls);
    }
    let mut w: u64 = 0;
    let mut k: usize = 0;
    while k < path.len()
        invariant
            k <= path.len(),
            frags_wf(ls),
            ls == views(lines@),
            forall|m: int| 0 <= m < path@.len() ==> (#[trigger] path@[m]).0 < lines@.len(),
            path@.len() <= lines@.len(),
            lines@.len() <= 32768,
            w == path_weight(ls, path@.subrange(0, k as int)),
            w as int <= (k as int) * (FRAG_LEN_MAX as int),
        decreases path.len() - k,
    {
        let idx = path[k].0;
        proof {
            assert(ls[idx as int] == lines@[idx as int]@);
            assert(polyline_wf(ls[idx as int]));
            lemma_pts_bounded_widen(ls[idx as int], COORD_LIMIT, crate::geom::EXT_LIMIT);
            lemma_polyline_len_spec_bound(ls[idx as int]);
            assert(path@.subrange(0, k as int + 1).drop_last() =~= path@.subrange(0, k as int));
            assert(path@.subrange(0, k as int + 1).last() == path@[k as int]);
        }
        let l = polyline_len(&lines[idx]);
        w = w + l;
        k += 1;
    }
    proof {
        assert(path@.subrange(0, path@.len() as int) =~= path@);
    }
    w
}

/// The longest trail that continues `path`, found by exhaustive search.
/// The result is at least as heavy as every trail that begins with `path`.
fn extend_path(lines: &Vec<Polyline>, path: Vec<(usize, bool)>) -> (best: Vec<(usize, bool)>)
    requires
        frags_wf(views(lines@)),
        path_ok(views(lines@), path@),
        1 <= path@.len(),
    ensures
        path_ok(views(lines@), best@),
        extends(best@, path@),
        forall|q: Seq<(usize, bool)>|
            path_ok(views(lines@), q) && extends(q, path@) ==> path_weight(views(lines@), q)
                <= path_weight(views(lines@), best@),
    decreases lines@.len() - path@.len(),
{
    let ghost ls = views(lines@);
    proof {
        lemma_path_ok_len(ls, path@);
        lemma_frag_count(ls);
    }
    let n = lines.len();
    let last_st = path[path.len() - 1];
    proof {
        assert(ls[last_st.0 as int] == lines@[last_st.0 as int]@);
    }
    let tail_pt = step_tail_exec(lines, last_st);
    let mut best = clone_path(&path);
    let mut bw = path_weight_exec(lines, &best);
    proof {
        assert(best@.subrange(0, path@.len() as int) =~= path@);
        assert forall|q: Seq<(usize, bool)>|
            path_ok(ls, q) && extends(q, path@) && q.len() == path@.len() implies path_weight(
            ls,
            q,
        ) <= bw by {
            assert(q.subrange(0, q.len() as int) =~= q);
            assert(q == path@);
        }
    }
    let mut c: usize = 0;
    while c < 2 * n
        invariant
            frags_wf(ls),
            ls == views(lines@),
            path_ok(ls, path@),
            1 <= path@.len() <= lines@.len(),
            n == lines@.len(),
            n <= 32768,
            c <= 2 * n,
            last_st == path@.last(),
            tail_pt == step_tail(ls, last_st),
            path_ok(ls, best@),
            extends(best@, path@),
            bw == path_weight(ls, best@),
            forall|q: Seq<(usize, bool)>|
                path_ok(ls, q) && extends(q, path@) && (q.len() == path@.len() || step_code(
                    q[path@.len() as int],
                ) < c) ==> path_weight(ls, q) <= bw,
        decreases 2 * n - c,
    {
        let j = c / 2;
        let fj = c % 2 == 1;
        let st = (j, fj);
        proof {
            assert(step_code(st) == c);
        }
        let joins = if contains_idx(&path, j) {
            false
        } else {
            proof {
                assert(ls[j as int] == lines@[j as int]@);
                assert(polyline_wf(ls[j as int]));
            }
            step_head_exec(lines, st) == tail_pt
        };
        if joins {
            let mut p2 = clone_path(&path);
            p2.push(st);
            proof {
                assert(p2@ == path@.push(st));
                assert forall|k: int| 0 <= k < p2@.len() implies (#[trigger] p2@[k]).0
                    < ls.len() by {
                    if k < path@.len() {
                        assert(p2@[k] == path@[k]);
                    }
                }
                assert forall|a: int, b: int| #![trigger p2@[a], p2@[b]] 0 <= a < b < p2@.len()
                    implies p2@[a].0 != p2@[b].0 by {
                    if b < path@.len() {
                        assert(p2@[a] == path@[a] && p2@[b] == path@[b]);
                    } else {
                        assert(p2@[b] == st);
                        assert(p2@[a] == path@[a]);
                        assert(!on_path(path@, j as int));
                    }
                }
                assert forall|k: int| 0 <= k < p2@.len() - 1 implies step_tail(
                    ls,
                    #[trigger] p2@[k],
                ) == step_head(ls, p2@[k + 1]) by {
                    if k < path@.len() - 1 {
                        assert(p2@[k] == path@[k] && p2@[k + 1] == path@[k + 1]);
                    } else {
                        assert(p2@[k] == path@.last() && p2@[k + 1] == st);
                    }
                }
                assert(path_ok(ls, p2@));
                lemma_path_ok_len(ls, p2@);
            }
            let cand = extend_path(lines, p2);
            let ghost candv = cand@;
            proof {
                lemma_path_ok_len(ls, candv);
            }
            let cw = path_weight_exec(lines, &cand);
            let ghost old_bw = bw;
            if cw > bw {
                best = cand;
                bw = cw;
                proof {
                    assert forall|x: int| 0 <= x < path@.len() implies best@.subrange(
                        0,
                        path@.len() as int,
                    )[x] == path@[x] by {
                        assert(best@[x] == candv.subrange(0, path@.len() as int + 1)[x]);
                    }
                    assert(best@.subrange(0, path@.len() as int) =~= path@);
                }
            }
            proof {
                assert forall|q: Seq<(usize, bool)>|
                    path_ok(ls, q) && extends(q, path@) && q.len() > path@.len() && step_code(
                        q[path@.len() as int],
                    ) == c implies path_weight(ls, q) <= bw by {
                    let m = path@.len() as int;
                    assert(2 * q[m].0 + (if q[m].1 { 1int } else { 0int }) == c);
                    assert(q[m] == st);
                    assert forall|x: int| 0 <= x < m + 1 implies q.subrange(0, m + 1)[x]
                        == path@.push(st)[x] by {
                        if x < m {
                            assert(q.subrange(0, m)[x] == path@[x]);
                        }
                    }
                    assert(q.subrange(0, m + 1) =~= path@.push(st));
                    assert(extends(q, path@.push(st)));
                    assert(path_weight(ls, q) <= path_weight(ls, candv));
                    assert(path_weight(ls, candv) == cw);
                    assert(cw <= bw);
                }
            }
        } else {
            proof {
                assert forall|q: Seq<(usize, bool)>|
                    path_ok(ls, q) && extends(q, path@) && q.len() > path@.len() && step_code(
                        q[path@.len() as int],
                    ) == c implies path_weight(ls, q) <= bw by {
                    let m = path@.len() as int;
                    assert(2 * q[m].0 + (if q[m].1 { 1int } else { 0int }) == c);
                    assert(q[m] == st);
                    if on_path(path@, j as int) {
                        let k = choose|k: int|
                            0 <= k < path@.len() && (#[trigger] path@[k]).0 == j as int;
                        assert(q.subrange(0, m)[k] == path@[k]);
                        assert(q[k].0 == q[m].0);
                        assert(false);
                    } else {
                        assert(q.subrange(0, m)[m - 1] == path@[m - 1]);
                        assert(q[m - 1] == path@.last());
                        assert(step_tail(ls, q[m - 1]) == step_head(ls, q[m]));
                        assert(false);
                    }
                }
            }
        }
        c += 1;
    }
    proof {
        assert forall|q: Seq<(usize, bool)>| path_ok(ls, q) && extends(q, path@)
            implies path_weight(ls, q) <= bw by {
            if q.len() > path@.len() {
                let m = path@.len() as int;
                assert(q[m].0 < ls.len());
                assert(step_code(q[m]) < 2 * n);
            }
        }
    }
    best
}

/// Find a heaviest trail of at least two fragments, trying every pair of
/// oriented fragments as a start and extending exhaustively. Returns nothing
/// exactly when no two distinct fragments share an endpoint.
pub fn find_longest_path(lines: &Vec<Polyline>) -> (r: Option<Vec<(usize, bool)>>)
    requires
        frags_wf(views(lines@)),
    ensures
        r is None ==> !joinable(views(lines@)),
        r matches Some(p) ==> {
            &&& path_ok(views(lines@), p@)
            &&& 2 <= p@.len() <= lines@.len()
            &&& forall|q: Seq<(usize, bool)>|
                path_ok(views(lines@), q) && q.len() >= 2 ==> path_weight(views(lines@), q)
                    <= path_weight(views(lines@), p@)
        },
{
    let ghost ls = views(lines@);
    proof {
        lemma_frag_count(ls);
    }
    let n = lines.len();
    let mut best: Option<Vec<(usize, bool)>> = None;
    let mut bw: u64 = 0;
    let mut a: usize = 0;
    while a < 2 * n
        invariant
            frags_wf(ls),
            ls == views(lines@),
            n == lines@.len(),
            n <= 32768,
            a <= 2 * n,
            best is None ==> forall|q: Seq<(usize, bool)>|
                path_ok(ls, q) && q.len() >= 2 ==> step_code(#[trigger] q[0]) >= a,
            best matches Some(p) ==> {
                &&& path_ok(ls, p@)
                &&& 2 <= p@.len()
                &&& bw == path_weight(ls, p@)
                &&& forall|q: Seq<(usize, bool)>|
                    path_ok(ls, q) && q.len() >= 2 && step_code(#[trigger] q[0]) < a
                        ==> path_weight(ls, q) <= bw
            },
        decreases 2 * n - a,
    {
        let i = a / 2;
        let fi = a % 2 == 1;
        let sti = (i, fi);
        proof {
            assert(step_code(sti) == a);
        }
        let mut b: usize = 0;
        while b < 2 * n
            invariant
                frags_wf(ls),
                ls == views(lines@),
                n == lines@.len(),
                n <= 32768,
                a < 2 * n,
                b <= 2 * n,
                sti == (i, fi),
                step_code(sti) == a,
                i < n,
                best is None ==> forall|q: Seq<(usize, bool)>|
                    path_ok(ls, q) && q.len() >= 2 ==> step_code(#[trigger] q[0]) >= a && (
                    step_code(q[0]) == a ==> step_code(q[1]) >= b),
                best matches Some(p) ==> {
                    &&& path_ok(ls, p@)
                    &&& 2 <= p@.len()
                    &&& bw == path_weight(ls, p@)
                    &&& forall|q: Seq<(usize, bool)>|
                        path_ok(ls, q) && q.len() >= 2 && (step_code(#[trigger] q[0]) < a || (
                        step_code(q[0]) == a && step_code(q[1]) < b)) ==> path_weight(ls, q) <= bw
                },
            decreases 2 * n - b,
        {
            let j = b / 2;
            let fj = b % 2 == 1;
            let stj = (j, fj);
            proof {
                assert(step_code(stj) == b);
                assert(ls[i as int] == lines@[i as int]@);
                assert(ls[j as int] == lines@[j as int]@);
            }
            let mut found = false;
            if i != j {
                let tp = step_tail_exec(lines, sti);
                let hp = step_head_exec(lines, stj);
                if tp == hp {
                    found = true;
                    let mut seed: Vec<(usize, bool)> = Vec::new();
                    seed.push(sti);
                    seed.push(stj);
                    proof {
                        assert(seed@.len() == 2);
                        assert(seed@[0] == sti && seed@[1] == stj);
                        assert(path_ok(ls, seed@));
                    }
                    let cand = extend_path(lines, seed);
                    let ghost candv = cand@;
                    proof {
                        lemma_path_ok_len(ls, candv);
                    }
                    let cw = path_weight_exec(lines, &cand);
                    let accept = match &best {
                        Option::None => true,
                        Option::Some(_) => cw > bw,
                    };
                    if accept {
                        best = Some(cand);
                        bw = cw;
                    }
                    proof {
                        assert forall|q: Seq<(usize, bool)>|
                            path_ok(ls, q) && q.len() >= 2 && step_code(q[0]) == a && step_code(
                            q[1],
                        ) == b implies path_weight(ls, q) <= bw by {
                            assert(2 * q[0].0 + (if q[0].1 { 1int } else { 0int }) == a);
                            assert(2 * q[1].0 + (if q[1].1 { 1int } else { 0int }) == b);
                            assert(q[0] == sti && q[1] == stj);
                            assert forall|x: int| 0 <= x < 2 implies q.subrange(0, 2)[x]
                                == candv.subrange(0, 2)[x] by {
                                assert(candv.subrange(0, 2)[x] == candv[x]);
                            }
                            assert(q.subrange(0, 2) =~= candv.subrange(0, 2));
                            assert(extends(q, candv.subrange(0, 2)));
                            assert(path_weight(ls, q) <= path_weight(ls, candv));
                            assert(path_weight(ls, candv) == cw);
                        }
                    }
                }
            }
            proof {
                if !found {
                    assert forall|q: Seq<(usize, bool)>|
                        path_ok(ls, q) && q.len() >= 2 && step_code(q[0]) == a && step_code(q[1])
                            == b implies path_weight(ls, q) <= bw by {
                        assert(2 * q[0].0 + (if q[0].1 { 1int } else { 0int }) == a);
                        assert(2 * q[1].0 + (if q[1].1 { 1int } else { 0int }) == b);
                        assert(q[0] == sti && q[1] == stj);
                        assert(q[0].0 != q[1].0);
                        assert(step_tail(ls, q[0]) == step_head(ls, q[1]));
                        assert(false);
                    }
                }
            }
            b += 1;
        }
        proof {
            assert forall|q: Seq<(usize, bool)>|
                path_ok(ls, q) && q.len() >= 2 && step_code(q[0]) == a implies step_code(q[1]) < 2
                * n by {
                assert(q[1].0 < ls.len());
            }
        }
        a += 1;
    }
    proof {
        if best is None {
            if joinable(ls) {
                lemma_joinable_to_path(ls);
                let q = choose|q: Seq<(usize, bool)>| path_ok(ls, q) && q.len() == 2;
                assert(q[0].0 < ls.len());
                assert(step_code(q[0]) < 2 * n);
            }
        } else {
            assert forall|q: Seq<(usize, bool)>| path_ok(ls, q) && q.len() >= 2
                implies path_weight(ls, q) <= bw by {
                assert(q[0].0 < ls.len());
                assert(step_code(q[0]) < 2 * n);
            }
        }
        if best is Some {
            lemma_path_ok_len(ls, (best->Some_0)@);
        }
    }
    best
}

/// The points of one fragment in walking order.
pub open spec fn oriented_pts(ls: Seq<Seq<Pt>>, st: (usize, bool)) -> Seq<Pt> {
    if st.1 {
        ls[st.0 as int].reverse()
    } else {
        ls[st.0 as int]
    }
}

/// The polyline a trail merges into: the fragments' points in walking order,
/// with each shared joint point written once.
pub open spec fn merged_pts(ls: Seq<Seq<Pt>>, p: Seq<(usize, bool)>) -> Seq<Pt>
    decreases p.len(),
{
    if p.len() == 0 {
        Seq::empty()
    } else if p.len() == 1 {
        oriented_pts(ls, p[0])
    } else {
        merged_pts(ls, p.drop_last()) + oriented_pts(ls, p.last()).drop_first()
    }
}

/// Sum of the point counts of the fragments on a trail.
pub open spec fn path_pts(ls: Seq<Seq<Pt>>, p: Seq<(usize, bool)>) -> int
    decreases p.len(),
{
    if p.len() == 0 {
        0
    } else {
        path_pts(ls, p.drop_last()) + ls[p.last().0 as int].len()
    }
}

/// Point count of the fragments among the first `i` that lie on the trail.
pub open spec fn inpath_pts(ls: Seq<Seq<Pt>>, p: Seq<(usize, bool)>, i: int) -> int
    decreases i,
{
    if i <= 0 {
        0
    } else {
        inpath_pts(ls, p, i - 1) + if on_path(p, i - 1) {
            ls[i - 1].len() as int
        } else {
            0
        }
    }
}

/// Point count of the fragments among the first `i` that stay off the trail.
pub open spec fn kept_pts(ls: Seq<Seq<Pt>>, p: Seq<(usize, bool)>, i: int) -> int
    decreases i,
{
    if i <= 0 {
        0
    } else {
        kept_pts(ls, p, i - 1) + if on_path(p, i - 1) {
            0
        } else {
            ls[i - 1].len() as int
        }
    }
}

/// The fragments among the first `i` that stay off the trail, in order.
pub open spec fn kept_views(ls: Seq<Seq<Pt>>, p: Seq<(usize, bool)>, i: int) -> Seq<Seq<Pt>>
    decreases i,
{
    if i <= 0 {
        Seq::empty()
    } else {
        kept_views(ls, p, i - 1) + if on_path(p, i - 1) {
            Seq::<Seq<Pt>>::empty()
        } else {
            seq![ls[i - 1]]
        }
    }
}

/// Pairwise distinct fragment indices.
pub open spec fn distinct_steps(p: Seq<(usize, bool)>) -> bool {
    forall|j: int, k: int| #![trigger p[j], p[k]] 0 <= j < k < p.len() ==> p[j].0 != p[k].0
}

/// On- and off-trail points together are all points of the first `i`
/// fragments.
pub proof fn lemma_split_pts(ls: Seq<Seq<Pt>>, p: Seq<(usize, bool)>, i: int)
    ensures
        inpath_pts(ls, p, i) + kept_pts(ls, p, i) == pts_total_to(ls, i),
    decreases i,
{
    if i > 0 {
        lemma_split_pts(ls, p, i - 1);
    }
}

/// Trail membership splits over dropping the trail's last step.
pub proof fn lemma_on_path_drop_last(p: Seq<(usize, bool)>, j: int)
    requires
        p.len() >= 1,
    ensures
        on_path(p, j) <==> (on_path(p.drop_last(), j) || p.last().0 == j),
{
    let pd = p.drop_last();
    if on_path(p, j) {
        let k = choose|k: int| 0 <= k < p.len() && (#[trigger] p[k]).0 == j;
        if k < p.len() - 1 {
            assert(pd[k] == p[k]);
            assert(on_path(pd, j));
        }
    }
    if on_path(pd, j) {
        let k = choose|k: int| 0 <= k < pd.len() && (#[trigger] pd[k]).0 == j;
        assert(p[k] == pd[k]);
        assert(on_path(p, j));
    }
    if p.last().0 == j {
        assert(p[p.len() - 1].0 == j);
        assert(on_path(p, j));
    }
}

/// Dropping the trail's last step removes exactly that fragment's points
/// from the on-trail sum.
pub proof fn lemma_inpath_pts_drop_last(ls: Seq<Seq<Pt>>, p: Seq<(usize, bool)>, i: int)
    requires
        p.len() >= 1,
        distinct_steps(p),
    ensures
        inpath_pts(ls, p, i) == inpath_pts(ls, p.drop_last(), i) + if p.last().0 < i {
            ls[p.last().0 as int].len() as int
        } else {
            0
        },
    decreases i,
{
    let pd = p.drop_last();
    if i > 0 {
        lemma_inpath_pts_drop_last(ls, p, i - 1);
        lemma_on_path_drop_last(p, i - 1);
        if p.last().0 == i - 1 {
            if on_path(pd, i - 1) {
                let k = choose|k: int| 0 <= k < pd.len() && (#[trigger] pd[k]).0 == i - 1;
                assert(p[k] == pd[k]);
                assert(p[k].0 == p[p.len() - 1].0);
                assert(false);
            }
        }
    }
}

/// Summing on-trail fragments by index order equals summing them in trail
/// order.
pub proof fn lemma_path_pts_eq_inpath(ls: Seq<Seq<Pt>>, p: Seq<(usize, bool)>, i: int)
    requires
        distinct_steps(p),
        forall|k: int| 0 <= k < p.len() ==> (#[trigger] p[k]).0 < i,
    ensures
        path_pts(ls, p) == inpath_pts(ls, p, i),
    decreases p.len(),
{
    if p.len() == 0 {
        lemma_inpath_pts_empty(ls, p, i);
    } else {
        let pd = p.drop_last();
        assert forall|k: int| 0 <= k < pd.len() implies (#[trigger] pd[k]).0 < i by {
            assert(pd[k] == p[k]);
        }
        assert(distinct_steps(pd)) by {
            assert forall|a: int, b: int| #![trigger pd[a], pd[b]] 0 <= a < b < pd.len()
                implies pd[a].0 != pd[b].0 by {
                assert(pd[a] == p[a] && pd[b] == p[b]);
            }
        }
        lemma_path_pts_eq_inpath(ls, pd, i);
        lemma_inpath_pts_drop_last(ls, p, i);
    }
}

/// An empty trail has no on-trail points.
pub proof fn lemma_inpath_pts_empty(ls: Seq<Seq<Pt>>, p: Seq<(usize, bool)>, i: int)
    requires
        p.len() == 0,
    ensures
        inpath_pts(ls, p, i) == 0,
    decreases i,
{
    if i > 0 {
        lemma_inpath_pts_empty(ls, p, i - 1);
    }
}

/// Off-trail points are never negative.
pub proof fn lemma_kept_pts_nonneg(ls: Seq<Seq<Pt>>, p: Seq<(usize, bool)>, i: int)
    ensures
        kept_pts(ls, p, i) >= 0,
    decreases i,
{
    if i > 0 {
        lemma_kept_pts_nonneg(ls, p, i - 1);
    }
}

/// A trail's fragments hold at least two points each.
pub proof fn lemma_path_pts_ge(ls: Seq<Seq<Pt>>, p: Seq<(usize, bool)>)
    requires
        forall|i: int| 0 <= i < ls.len() ==> polyline_wf(#[trigger] ls[i]),
        forall|k: int| 0 <= k < p.len() ==> (#[trigger] p[k]).0 < ls.len(),
    ensures
        path_pts(ls, p) >= 2 * p.len(),
    decreases p.len(),
{
    if p.len() > 0 {
        let pd = p.drop_last();
        assert forall|k: int| 0 <= k < pd.len() implies (#[trigger] pd[k]).0 < ls.len() by {
            assert(pd[k] == p[k]);
        }
        lemma_path_pts_ge(ls, pd);
        assert(polyline_wf(ls[p.last().0 as int]));
    }
}

/// Length and coordinate bounds of the merged polyline: every joint point is
/// written once, so the merge saves one point per join.
pub proof fn lemma_merged_pts(ls: Seq<Seq<Pt>>, p: Seq<(usize, bool)>)
    requires
        forall|i: int| 0 <= i < ls.len() ==> polyline_wf(#[trigger] ls[i]),
        forall|k: int| 0 <= k < p.len() ==> (#[trigger] p[k]).0 < ls.len(),
        p.len() >= 1,
    ensures
        merged_pts(ls, p).len() == path_pts(ls, p) - (p.len() - 1),
        pts_bounded(merged_pts(ls, p), COORD_LIMIT),
    decreases p.len(),
{
    if p.len() == 1 {
        assert(polyline_wf(ls[p[0].0 as int]));
        assert(path_pts(ls, p.drop_last()) == 0);
        assert forall|x: int| 0 <= x < merged_pts(ls, p).len() implies in_bounds(
            #[trigger] merged_pts(ls, p)[x],
            COORD_LIMIT,
        ) by {
            let s = ls[p[0].0 as int];
            if p[0].1 {
                assert(merged_pts(ls, p)[x] == s[s.len() - 1 - x]);
            }
        }
    } else {
        let pd = p.drop_last();
        assert forall|k: int| 0 <= k < pd.len() implies (#[trigger] pd[k]).0 < ls.len() by {
            assert(pd[k] == p[k]);
        }
        lemma_merged_pts(ls, pd);
        assert(polyline_wf(ls[p.last().0 as int]));
        let tail = oriented_pts(ls, p.last()).drop_first();
        assert forall|x: int| 0 <= x < merged_pts(ls, p).len() implies in_bounds(
            #[trigger] merged_pts(ls, p)[x],
            COORD_LIMIT,
        ) by {
            let m = merged_pts(ls, pd);
            if x >= m.len() {
                let s = ls[p.last().0 as int];
                assert(merged_pts(ls, p)[x] == tail[x - m.len()]);
                if p.last().1 {
                    assert(tail[x - m.len()] == s[s.len() - 1 - (x - m.len() + 1)]);
                } else {
                    assert(tail[x - m.len()] == s[x - m.len() + 1]);
                }
            }
        }
    }
}

/// Prefix sums of point counts agree where the lists agree.
pub proof fn lemma_pts_total_to_agree(a: Seq<Seq<Pt>>, b: Seq<Seq<Pt>>, j: int)
    requires
        forall|m: int| 0 <= m < j ==> a[m] == b[m],
    ensures
        pts_total_to(a, j) == pts_total_to(b, j),
    decreases j,
{
    if j > 0 {
        lemma_pts_total_to_agree(a, b, j - 1);
    }
}

/// Appending one fragment adds its points to the total.
pub proof fn lemma_pts_total_push(a: Seq<Seq<Pt>>, x: Seq<Pt>)
    ensures
        pts_total(a.push(x)) == pts_total(a) + x.len(),
{
    lemma_pts_total_to_agree(a.push(x), a, a.len() as int);
}

/// Prepending one fragment adds its points to the total.
pub proof fn lemma_pts_total_prepend(x: Seq<Pt>, b: Seq<Seq<Pt>>)
    ensures
        pts_total(seq![x] + b) == x.len() + pts_total(b),
    decreases b.len(),
{
    if b.len() == 0 {
        assert(seq![x] + b =~= seq![x]);
        assert(pts_total_to(seq![x], 1) == pts_total_to(seq![x], 0) + x.len());
    } else {
        let bd = b.drop_last();
        lemma_pts_total_prepend(x, bd);
        let s = seq![x] + b;
        let sd = seq![x] + bd;
        assert(pts_total(s) == pts_total_to(s, s.len() as int - 1) + s.last().len());
        assert forall|m: int| 0 <= m < sd.len() implies s[m] == sd[m] by {}
        lemma_pts_total_to_agree(s, sd, sd.len() as int);
        assert(s.last() == b.last());
        assert(pts_total(b) == pts_total_to(b, b.len() as int - 1) + b.last().len());
        lemma_pts_total_to_agree(b, bd, bd.len() as int);
    }
}

/// The off-trail fragments carry exactly the off-trail points, each one a
/// well-formed polyline, and there are at most `i` of them.
pub proof fn lemma_kept_views_props(ls: Seq<Seq<Pt>>, p: Seq<(usize, bool)>, i: int)
    requires
        forall|k: int| 0 <= k < ls.len() ==> polyline_wf(#[trigger] ls[k]),
        0 <= i <= ls.len(),
    ensures
        pts_total(kept_views(ls, p, i)) == kept_pts(ls, p, i),
        kept_views(ls, p, i).len() <= i,
        forall|m: int| 0 <= m < kept_views(ls, p, i).len() ==> polyline_wf(
            #[trigger] kept_views(ls, p, i)[m],
        ),
    decreases i,
{
    if i > 0 {
        lemma_kept_views_props(ls, p, i - 1);
        let prev = kept_views(ls, p, i - 1);
        if !on_path(p, i - 1) {
            assert(kept_views(ls, p, i) =~= prev.push(ls[i - 1]));
            lemma_pts_total_push(prev, ls[i - 1]);
        } else {
            assert(kept_views(ls, p, i) =~= prev);
        }
    }
}

/// At least the trail's first two fragments are missing from the kept list.
pub proof fn lemma_kept_views_skips(ls: Seq<Seq<Pt>>, p: Seq<(usize, bool)>, i: int)
    requires
        p.len() >= 2,
        p[0].0 != p[1].0,
        0 <= i,
    ensures
        kept_views(ls, p, i).len() <= i - (if (p[0].0 as int) < i {
            1int
        } else {
            0int
        }) - (if (p[1].0 as int) < i {
            1int
        } else {
            0int
        }),
    decreases i,
{
    if i > 0 {
        lemma_kept_views_skips(ls, p, i - 1);
        if p[0].0 == i - 1 || p[1].0 == i - 1 {
            assert(on_path(p, i - 1));
        }
    }
}

/// Merge the fragments on a trail into a single polyline, in walking order,
/// writing each shared joint point once.
fn merge_path(lines: &Vec<Polyline>, path: &Vec<(usize, bool)>) -> (r: Polyline)
    requires
        frags_wf(views(lines@)),
        path_ok(views(lines@), path@),
        1 <= path@.len(),
    ensures
        r@ == merged_pts(views(lines@), path@),
{
    let ghost ls = views(lines@);
    let mut pts: Vec<Pt> = Vec::new();
    let mut k: usize = 0;
    while k < path.len()
        invariant
            k <= path.len(),
            frags_wf(ls),
            ls == views(lines@),
            path_ok(ls, path@),
            1 <= path@.len(),
            pts@ == merged_pts(ls, path@.subrange(0, k as int)),
        decreases path.len() - k,
    {
        let st = path[k];
        let l = &lines[st.0];
        proof {
            assert(ls[st.0 as int] == l@);
            assert(polyline_wf(l@));
        }
        let skip: usize = if k > 0 {
            1
        } else {
            0
        };
        let ghost prev = pts@;
        let ghost ori = oriented_pts(ls, st);
        let mut m: usize = skip;
        proof {
            assert(ori.subrange(skip as int, skip as int) =~= Seq::<Pt>::empty());
            assert(pts@ =~= prev + ori.subrange(skip as int, skip as int));
        }
        while m < l.pts.len()
            invariant
                skip <= m <= l.pts.len(),
                l@.len() >= 2,
                ori == oriented_pts(ls, st),
                st.0 < ls.len(),
                ls[st.0 as int] == l@,
                pts@ == prev + ori.subrange(skip as int, m as int),
            decreases l.pts.len() - m,
        {
            if st.1 {
                pts.push(l.pts[l.pts.len() - 1 - m]);
                proof {
                    assert(ori[m as int] == l@[l@.len() - 1 - m]);
                }
            } else {
                pts.push(l.pts[m]);
                proof {
                    assert(ori[m as int] == l@[m as int]);
                }
            }
            proof {
                assert(ori.subrange(skip as int, m + 1) =~= ori.subrange(
                    skip as int,
                    m as int,
                ).push(ori[m as int]));
                assert(pts@ =~= prev + ori.subrange(skip as int, m + 1));
            }
            m += 1;
        }
        proof {
            assert(ori.len() == l@.len());
            assert(pts@ == prev + ori.subrange(skip as int, ori.len() as int));
            let sub1 = path@.subrange(0, k as int + 1);
            assert(sub1.drop_last() =~= path@.subrange(0, k as int));
            assert(sub1.last() == path@[k as int]);
            if k == 0 {
                assert(ori.subrange(0, ori.len() as int) =~= ori);
                assert(prev =~= Seq::<Pt>::empty());
                assert(pts@ =~= ori);
                assert(sub1.len() == 1);
                assert(merged_pts(ls, sub1) == oriented_pts(ls, sub1[0]));
            } else {
                assert(ori.subrange(1, ori.len() as int) =~= ori.drop_first());
                assert(merged_pts(ls, sub1) == merged_pts(ls, sub1.drop_last()) + oriented_pts(
                    ls,
                    sub1.last(),
                ).drop_first());
                assert(pts@ =~= merged_pts(ls, sub1));
            }
        }
        k += 1;
    }
    proof {
        assert(path@.subrange(0, path@.len() as int) =~= path@);
    }
    Polyline { pts }
}

/// Replace the fragments on a trail by their merge, keeping every other
/// fragment, in order, behind it. The merged polyline holds every point of
/// the trail's fragments with each of the joint points written once.
pub fn join_path(lines: Vec<Polyline>, path: &Vec<(usize, bool)>) -> (r: Vec<Polyline>)
    requires
        frags_wf(views(lines@)),
        path_ok(views(lines@), path@),
        2 <= path@.len(),
    ensures
        frags_wf(views(r@)),
        views(r@) == seq![merged_pts(views(lines@), path@)] + kept_views(
            views(lines@),
            path@,
            lines@.len() as int,
        ),
        r@.len() < lines@.len(),
        r@[0]@ == merged_pts(views(lines@), path@),
        r@[0]@.len() == path_pts(views(lines@), path@) - (path@.len() - 1),
{
    let ghost ls = views(lines@);
    let n = lines.len();
    proof {
        assert(distinct_steps(path@));
        lemma_path_pts_eq_inpath(ls, path@, n as int);
        lemma_split_pts(ls, path@, n as int);
        lemma_kept_pts_nonneg(ls, path@, n as int);
        lemma_path_pts_ge(ls, path@);
        lemma_merged_pts(ls, path@);
        lemma_kept_views_props(ls, path@, n as int);
        lemma_kept_views_skips(ls, path@, n as int);
    }
    let merged = merge_path(&lines, path);
    let mut r: Vec<Polyline> = Vec::new();
    r.push(merged);
    proof {
        assert(views(r@) =~= seq![merged_pts(ls, path@)] + kept_views(ls, path@, 0));
    }
    let mut i: usize = 0;
    while i < n
        invariant
            i <= n,
            n == lines@.len(),
            frags_wf(ls),
            ls == views(lines@),
            path_ok(ls, path@),
            2 <= path@.len(),
            views(r@) == seq![merged_pts(ls, path@)] + kept_views(ls, path@, i as int),
        decreases n - i,
    {
        let ghost before = views(r@);
        if !contains_idx(path, i) {
            r.push(lines[i].clone());
            proof {
                assert(ls[i as int] == lines@[i as int]@);
                assert(views(r@) =~= before.push(ls[i as int]));
                assert(kept_views(ls, path@, i as int + 1) =~= kept_views(ls, path@, i as int)
                    + seq![ls[i as int]]);
                assert(views(r@) =~= seq![merged_pts(ls, path@)] + kept_views(
                    ls,
                    path@,
                    i as int + 1,
                ));
            }
        } else {
            proof {
                assert(kept_views(ls, path@, i as int + 1) =~= kept_views(ls, path@, i as int));
                assert(views(r@) =~= seq![merged_pts(ls, path@)] + kept_views(
                    ls,
                    path@,
                    i as int + 1,
                ));
            }
        }
        i += 1;
    }
    proof {
        let kv = kept_views(ls, path@, n as int);
        assert(views(r@).len() == 1 + kv.len());
        assert(path@[0].0 < ls.len() && path@[1].0 < ls.len());
        assert(r@.len() < lines@.len());
        assert(path_pts(ls, path@) <= pts_total(ls));
        assert forall|m: int| 0 <= m < views(r@).len() implies polyline_wf(
            #[trigger] views(r@)[m],
        ) by {
            if m == 0 {
                assert(views(r@)[0] == merged_pts(ls, path@));
            } else {
                assert(views(r@)[m] == kv[m - 1]);
            }
        }
        lemma_pts_total_prepend(merged_pts(ls, path@), kv);
        assert(pts_total(views(r@)) == merged_pts(ls, path@).len() + pts_total(kv));
        assert(pts_total(views(r@)) <= pts_total(ls));
        assert(views(r@)[0] == r@[0]@);
    }
    r
}

/// A trail a joining round may merge: at least two fragments, and at
/// least as heavy as every other trail of the working set.
pub open spec fn round_trail(a: Seq<Seq<Pt>>, p: Seq<(usize, bool)>) -> bool {
    &&& path_ok(a, p)
    &&& p.len() >= 2
    &&& forall|q: Seq<(usize, bool)>|
        #![trigger path_ok(a, q)]
        path_ok(a, q) && q.len() >= 2 ==> path_weight(a, q) <= path_weight(a, p)
}

/// One joining round: the fragments of a heaviest trail are merged into
/// one polyline and every other fragment is kept, in order. No coordinate
/// is invented: the round's output is made of the input fragments, one of
/// them a concatenation with joints written once.
pub open spec fn join_round(a: Seq<Seq<Pt>>, b: Seq<Seq<Pt>>) -> bool {
    exists|p: Seq<(usize, bool)>|
        #![trigger round_trail(a, p)]
        round_trail(a, p) && b == seq![merged_pts(a, p)] + kept_views(a, p, a.len() as int)
}

/// `b` arises from `a` by zero or more joining rounds. Every fragment of
/// `b` is a concatenation of one or more distinct fragments of `a`
/// (possibly reversed, shared joint points written once), and every
/// fragment of `a` went into exactly one fragment of `b`.
pub open spec fn joined_from(a: Seq<Seq<Pt>>, b: Seq<Seq<Pt>>) -> bool
    decreases a.len(),
{
    a == b || exists|c: Seq<Seq<Pt>>|
        #![trigger join_round(a, c)]
        c.len() < a.len() && join_round(a, c) && joined_from(c, b)
}

/// `q` is one of the points of some fragment of `a`.
pub open spec fn pt_of(a: Seq<Seq<Pt>>, q: Pt) -> bool {
    exists|i: int, y: int|
        #![trigger a[i][y]]
        0 <= i < a.len() && 0 <= y < a[i].len() && a[i][y] == q
}

/// Every fragment the trail leaves behind is a fragment of the input.
pub proof fn lemma_kept_views_origin(a: Seq<Seq<Pt>>, p: Seq<(usize, bool)>, i: int)
    requires
        0 <= i <= a.len(),
    ensures
        forall|m: int| 0 <= m < kept_views(a, p, i).len() ==> exists|j: int|
            0 <= j < a.len() && #[trigger] kept_views(a, p, i)[m] == a[j],
    decreases i,
{
    if i > 0 {
        lemma_kept_views_origin(a, p, i - 1);
        let prev = kept_views(a, p, i - 1);
        let cur = kept_views(a, p, i);
        assert forall|m: int| 0 <= m < cur.len() implies exists|j: int|
            0 <= j < a.len() && #[trigger] cur[m] == a[j] by {
            if m < prev.len() {
                assert(cur[m] == prev[m]);
            } else {
                assert(cur[m] == a[i - 1]);
            }
        }
    }
}

/// Every point of the merged polyline is a point of some input fragment.
pub proof fn lemma_merged_pts_origin(a: Seq<Seq<Pt>>, p: Seq<(usize, bool)>)
    requires
        forall|k: int| 0 <= k < p.len() ==> (#[trigger] p[k]).0 < a.len(),
        forall|i: int| 0 <= i < a.len() ==> (#[trigger] a[i]).len() >= 1,
    ensures
        forall|x: int| 0 <= x < merged_pts(a, p).len() ==> pt_of(a, #[trigger] merged_pts(a, p)[x]),
    decreases p.len(),
{
    if p.len() == 0 {
    } else if p.len() == 1 {
        let s = a[p[0].0 as int];
        assert forall|x: int| 0 <= x < merged_pts(a, p).len() implies pt_of(
            a,
            #[trigger] merged_pts(a, p)[x],
        ) by {
            if p[0].1 {
                assert(merged_pts(a, p)[x] == s[s.len() - 1 - x]);
                assert(a[p[0].0 as int][s.len() - 1 - x] == merged_pts(a, p)[x]);
            } else {
                assert(merged_pts(a, p)[x] == s[x]);
                assert(a[p[0].0 as int][x] == merged_pts(a, p)[x]);
            }
        }
    } else {
        let pd = p.drop_last();
        assert forall|k: int| 0 <= k < pd.len() implies (#[trigger] pd[k]).0 < a.len() by {
            assert(pd[k] == p[k]);
        }
        lemma_merged_pts_origin(a, pd);
        let m = merged_pts(a, pd);
        let s = a[p.last().0 as int];
        let tail = oriented_pts(a, p.last()).drop_first();
        assert forall|x: int| 0 <= x < merged_pts(a, p).len() implies pt_of(
            a,
            #[trigger] merged_pts(a, p)[x],
        ) by {
            if x < m.len() {
                assert(merged_pts(a, p)[x] == m[x]);
            } else {
                assert(merged_pts(a, p)[x] == tail[x - m.len()]);
                if p.last().1 {
                    assert(tail[x - m.len()] == s[s.len() - 1 - (x - m.len() + 1)]);
                    assert(a[p.last().0 as int][s.len() - 1 - (x - m.len() + 1)] == merged_pts(
                        a,
                        p,
                    )[x]);
                } else {
                    assert(tail[x - m.len()] == s[x - m.len() + 1]);
                    assert(a[p.last().0 as int][x - m.len() + 1] == merged_pts(a, p)[x]);
                }
            }
        }
    }
}

/// One joining round keeps every point: the output's points are points of
/// the input's fragments.
pub proof fn lemma_join_round_pts(a: Seq<Seq<Pt>>, c: Seq<Seq<Pt>>)
    requires
        join_round(a, c),
        forall|i: int| 0 <= i < a.len() ==> (#[trigger] a[i]).len() >= 1,
    ensures
        forall|j: int, x: int|
            #![trigger c[j][x]]
            0 <= j < c.len() && 0 <= x < c[j].len() ==> pt_of(a, c[j][x]),
{
    let p = choose|p: Seq<(usize, bool)>|
        #[trigger] round_trail(a, p) && c == seq![merged_pts(a, p)] + kept_views(
            a,
            p,
            a.len() as int,
        );
    lemma_merged_pts_origin(a, p);
    lemma_kept_views_origin(a, p, a.len() as int);
    let kv = kept_views(a, p, a.len() as int);
    assert forall|j: int, x: int|
        #![trigger c[j][x]]
        0 <= j < c.len() && 0 <= x < c[j].len() implies pt_of(a, c[j][x]) by {
        if j == 0 {
            assert(c[0] == merged_pts(a, p));
        } else {
            assert(c[j] == kv[j - 1]);
            let i = choose|i: int| 0 <= i < a.len() && kv[j - 1] == a[i];
            assert(a[i][x] == c[j][x]);
        }
    }
}

/// Joining keeps every point: whatever arises from a working set by
/// joining rounds is made of that set's points and no others.
pub proof fn lemma_joined_from_pts(a: Seq<Seq<Pt>>, b: Seq<Seq<Pt>>)
    requires
        joined_from(a, b),
        forall|i: int| 0 <= i < a.len() ==> (#[trigger] a[i]).len() >= 1,
    ensures
        forall|j: int, x: int|
            #![trigger b[j][x]]
            0 <= j < b.len() && 0 <= x < b[j].len() ==> pt_of(a, b[j][x]),
    decreases a.len(),
{
    if a == b {
        assert forall|j: int, x: int|
            #![trigger b[j][x]]
            0 <= j < b.len() && 0 <= x < b[j].len() implies pt_of(a, b[j][x]) by {
            assert(a[j][x] == b[j][x]);
        }
    } else {
        let c = choose|c: Seq<Seq<Pt>>|
            c.len() < a.len() && #[trigger] join_round(a, c) && joined_from(c, b);
        lemma_join_round_pts(a, c);
        assert forall|i: int| 0 <= i < c.len() implies (#[trigger] c[i]).len() >= 1 by {
            if c[i].len() == 0 {
                assert(false) by {
                    lemma_join_round_min_len(a, c, i);
                }
            }
        }
        lemma_joined_from_pts(c, b);
        assert forall|j: int, x: int|
            #![trigger b[j][x]]
            0 <= j < b.len() && 0 <= x < b[j].len() implies pt_of(a, b[j][x]) by {
            assert(pt_of(c, b[j][x]));
            let (i, y) = choose|i: int, y: int|
                #![trigger c[i][y]]
                0 <= i < c.len() && 0 <= y < c[i].len() && c[i][y] == b[j][x];
            assert(pt_of(a, c[i][y]));
        }
    }
}

/// No fragment of a joining round's output is empty.
proof fn lemma_join_round_min_len(a: Seq<Seq<Pt>>, c: Seq<Seq<Pt>>, i: int)
    requires
        join_round(a, c),
        forall|k: int| 0 <= k < a.len() ==> (#[trigger] a[k]).len() >= 1,
        0 <= i < c.len(),
    ensures
        c[i].len() >= 1,
{
    let p = choose|p: Seq<(usize, bool)>|
        #[trigger] round_trail(a, p) && c == seq![merged_pts(a, p)] + kept_views(
            a,
            p,
            a.len() as int,
        );
    if i == 0 {
        assert(c[0] == merged_pts(a, p));
        lemma_merged_len_ge(a, p);
    } else {
        lemma_kept_views_origin(a, p, a.len() as int);
        let kv = kept_views(a, p, a.len() as int);
        assert(c[i] == kv[i - 1]);
        let j = choose|j: int| 0 <= j < a.len() && kv[i - 1] == a[j];
    }
}

/// The merged polyline of a nonempty trail is nonempty.
proof fn lemma_merged_len_ge(a: Seq<Seq<Pt>>, p: Seq<(usize, bool)>)
    requires
        forall|k: int| 0 <= k < p.len() ==> (#[trigger] p[k]).0 < a.len(),
        forall|i: int| 0 <= i < a.len() ==> (#[trigger] a[i]).len() >= 1,
        p.len() >= 1,
    ensures
        merged_pts(a, p).len() >= 1,
    decreases p.len(),
{
    if p.len() == 1 {
    } else {
        let pd = p.drop_last();
        assert forall|k: int| 0 <= k < pd.len() implies (#[trigger] pd[k]).0 < a.len() by {
            assert(pd[k] == p[k]);
        }
        lemma_merged_len_ge(a, pd);
    }
}

/// Two-fragment law: when a joinable working set holds exactly two
/// fragments, any joining outcome is a single polyline holding both
/// fragments' points with the shared joint point written once.
pub proof fn lemma_two_fragment_join(a: Seq<Seq<Pt>>, b: Seq<Seq<Pt>>)
    requires
        forall|i: int| 0 <= i < a.len() ==> polyline_wf(#[trigger] a[i]),
        a.len() == 2,
        joinable(a),
        joined_from(a, b),
        !joinable(b),
    ensures
        b.len() == 1,
        b[0].len() == a[0].len() + a[1].len() - 1,
{
    if a == b {
        assert(false);
    }
    let c = choose|c: Seq<Seq<Pt>>|
        c.len() < a.len() && #[trigger] join_round(a, c) && joined_from(c, b);
    let p = choose|p: Seq<(usize, bool)>|
        #[trigger] round_trail(a, p) && c == seq![merged_pts(a, p)] + kept_views(
            a,
            p,
            a.len() as int,
        );
    lemma_path_ok_len(a, p);
    assert(p.len() == 2);
    assert(p[0].0 < 2 && p[1].0 < 2 && p[0].0 != p[1].0);
    lemma_kept_views_skips(a, p, 2);
    assert(kept_views(a, p, 2).len() == 0);
    assert(c =~= seq![merged_pts(a, p)]);
    lemma_merged_pts(a, p);
    assert(path_pts(a, p) == path_pts(a, p.drop_last()) + a[p.last().0 as int].len());
    assert(p.drop_last().len() == 1);
    assert(path_pts(a, p.drop_last()) == path_pts(a, p.drop_last().drop_last()) + a[p.drop_last(
    ).last().0 as int].len());
    assert(p.drop_last()[0] == p[0] && p.last() == p[1]);
    assert(path_pts(a, p) == a[p[0].0 as int].len() + a[p[1].0 as int].len());
    assert(a[p[0].0 as int].len() + a[p[1].0 as int].len() == a[0].len() + a[1].len());
    // A single fragment admits no further round, so the closure stops at c.
    if c != b {
        let d = choose|d: Seq<Seq<Pt>>|
            d.len() < c.len() && #[trigger] join_round(c, d) && joined_from(d, b);
        let p2 = choose|p2: Seq<(usize, bool)>|
            #[trigger] round_trail(c, p2) && d == seq![merged_pts(c, p2)] + kept_views(
                c,
                p2,
                c.len() as int,
            );
        lemma_path_ok_len(c, p2);
        assert(false);
    }
}

/// Join fragments until no two share an endpoint: each round merges a
/// heaviest trail and removes its fragments from the working set.
///
/// Running the joiner on its own output is a no-op: the result is never
/// joinable, and an input that is not joinable comes back unchanged. The
/// output arises from the input by joining rounds alone, so it holds
/// exactly the input's fragments, merged along shared endpoints.
pub fn join_linestrings(lines: Vec<Polyline>) -> (r: Vec<Polyline>)
    requires
        frags_wf(views(lines@)),
    ensures
        frags_wf(views(r@)),
        !joinable(views(r@)),
        joined_from(views(lines@), views(r@)),
        !joinable(views(lines@)) ==> r@ == lines@,
        r@.len() <= lines@.len(),
        lines@.len() >= 1 ==> r@.len() >= 1,
    decreases lines@.len(),
{
    let ghost ls = views(lines@);
    match find_longest_path(&lines) {
        Option::None => {
            proof {
                assert(joined_from(ls, ls));
            }
            lines
        },
        Option::Some(p) => {
            proof {
                lemma_path_to_joinable(ls, p@);
            }
            let next = join_path(lines, &p);
            let ghost nv = views(next@);
            proof {
                assert(round_trail(ls, p@));
                assert(join_round(ls, nv));
            }
            let r = join_linestrings(next);
            proof {
                assert(nv.len() < ls.len() && join_round(ls, nv) && joined_from(nv, views(r@)));
                assert(joined_from(ls, views(r@)));
            }
            r
        },
    }
}

} // verus!

