//! Sequence-diagram participant lookup and fragment participant ranges.
use vstd::prelude::*;

use crate::name_table::NameTable;

verus! {

/// The index of the participant called `name`.
pub fn find_participant_idx(name_to_idx: &NameTable<usize>, name: &str) -> (res: Option<usize>)
    ensures
        res == (if name_to_idx@.contains_key(name@) {
            Some(name_to_idx@[name@])
        } else {
            None
        }),
{
    match name_to_idx.get(name) {
        Some(i) => Some(*i),
        None => None,
    }
}


/// A fragment's participant range `(lowest, highest)` widened to take in
/// participant `idx`.
pub open spec fn widened_range(range: (Option<usize>, Option<usize>), idx: usize) -> (Option<usize>, Option<usize>) {
    (
        Some(match range.0 {
            Some(lo) => if lo <= idx { lo } else { idx },
            None => idx,
        }),
        Some(match range.1 {
            Some(hi) => if hi >= idx { hi } else { idx },
            None => idx,
        }),
    )
}

/// Widens the participant range of every open fragment to take in
/// participant `idx`.
pub fn update_fragment_participant_range(ranges: &mut Vec<(Option<usize>, Option<usize>)>, idx: usize)
    ensures
        final(ranges)@.len() == old(ranges)@.len(),
        forall|j: int|
            0 <= j < old(ranges)@.len() ==> #[trigger] final(ranges)@[j] == widened_range(old(ranges)@[j], idx),
{
    let n = ranges.len();
    for j in 0..n
        invariant
            n == old(ranges)@.len(),
            ranges@.len() == n,
            forall|k: int| 0 <= k < j ==> #[trigger] ranges@[k] == widened_range(old(ranges)@[k], idx),
            forall|k: int| j <= k < n ==> #[trigger] ranges@[k] == old(ranges)@[k],
    {
        let (lo, hi) = ranges[j];
        let new_lo = match lo {
            Some(l) => if l <= idx { l } else { idx },
            None => idx,
        };
        let new_hi = match hi {
            Some(h) => if h >= idx { h } else { idx },
            None => idx,
        };
        ranges.set(j, (Some(new_lo), Some(new_hi)));
    }
}

/// A widened range holds `idx` and everything the range held before, and
/// widening it again by the same participant changes nothing.
pub proof fn lemma_widened_range_covers(range: (Option<usize>, Option<usize>), idx: usize, p: usize)
    ensures
        widened_range(range, idx).0.unwrap() <= idx <= widened_range(range, idx).1.unwrap(),
        (range.0 matches Some(lo) && range.1 matches Some(hi) && lo <= p <= hi) ==> widened_range(range, idx).0.unwrap() <= p
            <= widened_range(range, idx).1.unwrap(),
        widened_range(widened_range(range, idx), idx) == widened_range(range, idx),
{
}


/// What a sequence event means for fragment nesting: a fragment opens, a
/// message between two participants (each given by index when known), the
/// innermost open fragment ends, or anything else.
#[derive(Debug, Clone, Copy, PartialEq, Eq, Structural)]
pub enum FragmentStep {
    Start,
    Message { from: Option<usize>, to: Option<usize> },
    End,
    Other,
}

/// A range widened by a participant when there is one.
pub open spec fn widened_by(range: (Option<usize>, Option<usize>), idx: Option<usize>) -> (Option<usize>, Option<usize>) {
    match idx {
        Some(i) => widened_range(range, i),
        None => range,
    }
}

/// Participant ranges of the open fragments and the deepest nesting seen
/// so far for each participant, after event `e`. A message widens every
/// open fragment's range by its two ends; when a fragment ends, each
/// participant in its range records the fragment's depth (from 1) if that
/// is deeper than what it had.
pub open spec fn fragment_step(
    state: (Seq<(Option<usize>, Option<usize>)>, Seq<usize>),
    e: FragmentStep,
) -> (Seq<(Option<usize>, Option<usize>)>, Seq<usize>) {
    let (open, depths) = state;
    match e {
        FragmentStep::Start => (open.push((None, None)), depths),
        FragmentStep::Message { from, to } => (
            open.map_values(|r: (Option<usize>, Option<usize>)| widened_by(widened_by(r, from), to)),
            depths,
        ),
        FragmentStep::End => if open.len() == 0 {
            (open, depths)
        } else {
            let d = open.len();
            let top = open.last();
            (
                open.drop_last(),
                match top {
                    (Some(lo), Some(hi)) => Seq::new(
                        depths.len(),
                        |p: int| if lo <= p <= hi && d > depths[p] { d as usize } else { depths[p] },
                    ),
                    _ => depths,
                },
            )
        },
        FragmentStep::Other => (open, depths),
    }
}

/// State after the first `k` events, for `n` participants.
pub open spec fn fragment_run(events: Seq<FragmentStep>, n: nat, k: int) -> (
    Seq<(Option<usize>, Option<usize>)>,
    Seq<usize>,
)
    decreases k,
{
    if k <= 0 {
        (Seq::empty(), Seq::new(n, |p: int| 0usize))
    } else {
        fragment_step(fragment_run(events, n, k - 1), events[k - 1])
    }
}

/// Every participant index a message names is below `n`.
pub open spec fn indices_below(events: Seq<FragmentStep>, n: nat) -> bool {
    forall|i: int| 0 <= i < events.len() ==> match #[trigger] events[i] {
        FragmentStep::Message { from, to } => (from matches Some(f) ==> f < n) && (to matches Some(t) ==> t < n),
        _ => true,
    }
}

/// Open ranges hold participants below `n` only, and are either both
/// known or both unknown.
spec fn ranges_ok(open: Seq<(Option<usize>, Option<usize>)>, n: nat) -> bool {
    forall|t: int| 0 <= t < open.len() ==> match #[trigger] open[t] {
        (Some(lo), Some(hi)) => lo <= hi < n,
        (None, None) => true,
        _ => false,
    }
}

proof fn lemma_fragment_run(events: Seq<FragmentStep>, n: nat, k: int)
    requires
        0 <= k <= events.len(),
        indices_below(events, n),
    ensures
        fragment_run(events, n, k).1.len() == n,
        fragment_run(events, n, k).0.len() <= k,
        ranges_ok(fragment_run(events, n, k).0, n),
    decreases k,
{
    if k > 0 {
        lemma_fragment_run(events, n, k - 1);
        let (open, depths) = fragment_run(events, n, k - 1);
        let e = events[k - 1];
        match e {
            FragmentStep::Start => {
                let o2 = open.push((None, None));
                assert forall|t: int| 0 <= t < o2.len() implies match #[trigger] o2[t] {
                    (Some(lo), Some(hi)) => lo <= hi < n,
                    (None, None) => true,
                    _ => false,
                } by {
                    if t < open.len() {
                        assert(o2[t] == open[t]);
                    }
                }
            },
            FragmentStep::Message { from, to } => {
                let o2 = fragment_run(events, n, k).0;
                assert forall|t: int| 0 <= t < o2.len() implies match #[trigger] o2[t] {
                    (Some(lo), Some(hi)) => lo <= hi < n,
                    (None, None) => true,
                    _ => false,
                } by {
                    assert(o2[t] == widened_by(widened_by(open[t], from), to));
                    match open[t] {
                        (Some(lo), Some(hi)) => {},
                        _ => {},
                    }
                }
            },
            FragmentStep::End => {
                if open.len() > 0 {
                    let o2 = open.drop_last();
                    assert forall|t: int| 0 <= t < o2.len() implies match #[trigger] o2[t] {
                        (Some(lo), Some(hi)) => lo <= hi < n,
                        (None, None) => true,
                        _ => false,
                    } by {
                        assert(o2[t] == open[t]);
                    }
                }
            },
            FragmentStep::Other => {},
        }
    }
}

/// The fragment closed by event `k` is `d` deep and covers participant `p`.
pub open spec fn closes_over(events: Seq<FragmentStep>, n: nat, k: int, p: int, d: nat) -> bool {
    &&& 0 <= k < events.len()
    &&& events[k] == FragmentStep::End
    &&& fragment_run(events, n, k).0.len() == d
    &&& d > 0
    &&& fragment_run(events, n, k).0.last() matches (Some(lo), Some(hi)) && lo <= p <= hi
}

proof fn lemma_depths_grow(events: Seq<FragmentStep>, n: nat, k: int, m: int, p: int)
    requires
        indices_below(events, n),
        events.len() <= usize::MAX,
        0 <= k <= m <= events.len(),
        0 <= p < n,
    ensures
        fragment_run(events, n, k).1[p] <= fragment_run(events, n, m).1[p],
    decreases m - k,
{
    if k < m {
        lemma_depths_grow(events, n, k, m - 1, p);
        lemma_step_grows(events, n, m - 1, p);
    }
}

/// One event leaves a participant's depth as it was or raises it to the
/// depth of the fragment that ends there, when that fragment covers it.
proof fn lemma_step_grows(events: Seq<FragmentStep>, n: nat, k: int, p: int)
    requires
        indices_below(events, n),
        events.len() <= usize::MAX,
        0 <= k < events.len(),
        0 <= p < n,
    ensures
        fragment_run(events, n, k + 1).1.len() == n,
        fragment_run(events, n, k).1[p] <= fragment_run(events, n, k + 1).1[p],
        fragment_run(events, n, k + 1).1[p] == fragment_run(events, n, k).1[p] || closes_over(
            events,
            n,
            k,
            p,
            fragment_run(events, n, k + 1).1[p] as nat,
        ),
        forall|d: nat| #[trigger] closes_over(events, n, k, p, d) ==> fragment_run(events, n, k + 1).1[p] >= d,
{
    lemma_fragment_run(events, n, k);
    lemma_fragment_run(events, n, k + 1);
    let prev = fragment_run(events, n, k);
    assert(fragment_run(events, n, k + 1) == fragment_step(prev, events[k]));
    let (open, depths) = prev;
    match events[k] {
        FragmentStep::End => {
            if open.len() > 0 {
                let d = open.len();
                match open.last() {
                    (Some(lo), Some(hi)) => {
                        let nd = Seq::new(
                            depths.len(),
                            |q: int| if lo <= q <= hi && d > depths[q] { d as usize } else { depths[q] },
                        );
                        assert(fragment_run(events, n, k + 1).1 == nd);
                        assert(nd[p] == if lo <= p <= hi && d > depths[p] { d as usize } else { depths[p] });
                    },
                    _ => {},
                }
            }
        },
        _ => {},
    }
}

proof fn lemma_depth_witness(events: Seq<FragmentStep>, n: nat, m: int, p: int)
    requires
        indices_below(events, n),
        events.len() <= usize::MAX,
        0 <= m <= events.len(),
        0 <= p < n,
    ensures
        fragment_run(events, n, m).1[p] == 0 || exists|k: int|
            k < m && #[trigger] closes_over(events, n, k, p, fragment_run(events, n, m).1[p] as nat),
    decreases m,
{
    if m > 0 {
        lemma_depth_witness(events, n, m - 1, p);
        lemma_step_grows(events, n, m - 1, p);
        let (open, depths) = fragment_run(events, n, m - 1);
        let v = fragment_run(events, n, m).1[p];
        if v != depths[p] {
        } else if v != 0 {
            let k = choose|k: int| k < m - 1 && #[trigger] closes_over(events, n, k, p, depths[p] as nat);
            assert(closes_over(events, n, k, p, v as nat));
        }
    }
}

/// Each participant's depth is the depth of the deepest ended fragment
/// whose participant range holds it: every such fragment leaves its depth
/// on every participant of its range, from the first to the last, and a
/// participant's depth is 0 or the depth of one of them.
pub proof fn lemma_fragment_depth_is_deepest_cover(events: Seq<FragmentStep>, n: nat, p: int)
    requires
        indices_below(events, n),
        events.len() <= usize::MAX,
        0 <= p < n,
    ensures
        forall|k: int, d: nat|
            #[trigger] closes_over(events, n, k, p, d) ==> fragment_run(events, n, events.len() as int).1[p] >= d,
        fragment_run(events, n, events.len() as int).1[p] == 0 || exists|k: int|
            #[trigger] closes_over(
                events,
                n,
                k,
                p,
                fragment_run(events, n, events.len() as int).1[p] as nat,
            ),
{
    lemma_depth_witness(events, n, events.len() as int, p);
    assert forall|k: int, d: nat| #[trigger] closes_over(events, n, k, p, d) implies fragment_run(
        events,
        n,
        events.len() as int,
    ).1[p] >= d by {
        lemma_step_grows(events, n, k, p);
        lemma_depths_grow(events, n, k + 1, events.len() as int, p);
    }
}

/// The deepest fragment nesting (from 1) each of `n` participants takes
/// part in, as far as the fragments that end tell; 0 for none.
pub fn max_fragment_depths(events: &[FragmentStep], n: usize) -> (res: Vec<usize>)
    requires
        indices_below(events@, n as nat),
    ensures
        res@ == fragment_run(events@, n as nat, events@.len() as int).1,
{
    let mut depths: Vec<usize> = Vec::new();
    for p in 0..n
        invariant
            depths@ == Seq::new(p as nat, |q: int| 0usize),
    {
        depths.push(0);
        assert(depths@ =~= Seq::new((p + 1) as nat, |q: int| 0usize));
    }
    let mut open: Vec<(Option<usize>, Option<usize>)> = Vec::new();
    assert(depths@ =~= fragment_run(events@, n as nat, 0).1);
    for i in 0..events.len()
        invariant
            indices_below(events@, n as nat),
            (open@, depths@) == fragment_run(events@, n as nat, i as int),
    {
        proof {
            lemma_fragment_run(events@, n as nat, i as int);
        }
        let ghost before = (open@, depths@);
        assert(fragment_run(events@, n as nat, i + 1) == fragment_step(before, events@[i as int]));
        match events[i] {
            FragmentStep::Start => {
                open.push((None, None));
            },
            FragmentStep::Message { from, to } => {
                if let Some(f) = from {
                    update_fragment_participant_range(&mut open, f);
                }
                let ghost mid = open@;
                if let Some(t) = to {
                    update_fragment_participant_range(&mut open, t);
                }
                assert(open@ =~= before.0.map_values(
                    |r: (Option<usize>, Option<usize>)| widened_by(widened_by(r, from), to),
                ));
            },
            FragmentStep::End => {
                if open.len() > 0 {
                    let d = open.len();
                    let top = open.pop().unwrap();
                    assert(top == before.0.last());
                    if let (Some(lo), Some(hi)) = top {
                        assert(before.0[before.0.len() - 1] == top);
                        assert(lo <= hi < n);
                        let ghost target = Seq::new(
                            n as nat,
                            |p: int| if lo <= p <= hi && d > before.1[p] { d as usize } else { before.1[p] },
                        );
                        let mut q = lo;
                        while q <= hi
                            invariant
                                lo <= q <= hi + 1,
                                hi < n,
                                depths@.len() == n,
                                before.1.len() == n,
                                forall|p: int| 0 <= p < n ==> #[trigger] depths@[p] == (if lo <= p < q && d
                                    > before.1[p] {
                                    d
                                } else {
                                    before.1[p]
                                }),
                            decreases hi + 1 - q,
                        {
                            if d > depths[q] {
                                depths.set(q, d);
                            }
                            q = q + 1;
                        }
                        assert(depths@ =~= target);
                    }
                }
            },
            FragmentStep::Other => {},
        }
    }
    depths
}

} // verus!
