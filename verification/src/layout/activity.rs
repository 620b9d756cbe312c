//! Activity-diagram layout rules: node kinds, note grouping, swimlane
//! lookup, creole table detection and the markup carried over wrapped
//! note lines.
use vstd::prelude::*;

use crate::text::{chars_of, str_eq, string_of, string_views, trim, trim_chars};

verus! {

/// How a note attached to a flow node is drawn: alone, or grouped with
/// the other notes of the same node.
#[derive(Debug, Clone, Copy, PartialEq, Eq, Structural)]
pub enum ActivityNoteModeLayout {
    Grouped,
    Single,
}

/// Note position in the layout coordinate space.
#[derive(Debug, Clone, Copy, PartialEq, Eq, Structural)]
pub enum NotePositionLayout {
    Left,
    Right,
}

/// Visual kind of a node: decides how the renderer draws it.
#[derive(Debug, Clone, Copy, PartialEq, Eq, Structural)]
pub enum ActivityNodeKindLayout {
    Start,
    Stop,
    End,
    Action,
    Diamond,
    ForkBar,
    SyncBar,
    Note { position: NotePositionLayout, mode: ActivityNoteModeLayout },
    FloatingNote { position: NotePositionLayout, mode: ActivityNoteModeLayout },
    Detach,
}

/// Identifiers that an old-style activity node carries into the SVG.
#[derive(Debug, Clone, PartialEq)]
pub struct ActivityGraphvizNodeMeta {
    pub id: String,
    pub uid: String,
    pub qualified_name: String,
}

/// Shape of a creole table written in an action's text.
#[derive(Debug, Clone, PartialEq, Eq)]
pub enum ActivityTableKind {
    SingleColumn { rows: Vec<String> },
    MultiColumn,
}

/// Whether a node takes part in the sequential flow: every node but a
/// note.
pub open spec fn flow_kind(kind: ActivityNodeKindLayout) -> bool {
    !(kind is Note || kind is FloatingNote)
}

/// Whether a node is a flow node (notes are not).
pub fn is_flow_node(kind: &ActivityNodeKindLayout) -> (res: bool)
    ensures
        res == flow_kind(*kind),
{
    match kind {
        ActivityNodeKindLayout::Note { .. } | ActivityNodeKindLayout::FloatingNote { .. } => false,
        _ => true,
    }
}

/// Index of the swimlane called `name`: the first lane with that name,
/// or 0 when there is none.
pub fn resolve_swimlane_index(swimlanes: &[String], name: &str) -> (res: usize)
    ensures
        (res < swimlanes.len() && swimlanes@[res as int]@ == name@ && forall|j: int|
            0 <= j < res ==> swimlanes@[j]@ != name@) || (res == 0 && forall|j: int|
            0 <= j < swimlanes.len() ==> swimlanes@[j]@ != name@),
{
    for i in 0..swimlanes.len()
        invariant
            forall|j: int| 0 <= j < i ==> swimlanes@[j]@ != name@,
    {
        if str_eq(swimlanes[i].as_str(), name) {
            return i;
        }
    }
    0
}

/// A trimmed line that is a table row: `|...|` with something between.
pub open spec fn is_table_row(t: Seq<char>) -> bool {
    t.len() > 2 && t[0] == '|' && t.last() == '|'
}

/// What lies between the outer bars of a table row.
pub open spec fn row_inner(t: Seq<char>) -> Seq<char> {
    t.subrange(1, t.len() - 1)
}

/// A table row with at least two cells.
pub open spec fn is_multi_cell_row(t: Seq<char>) -> bool {
    is_table_row(t) && row_inner(t).contains('|')
}

/// Some line is a table row.
pub open spec fn any_table_row(ls: Seq<Seq<char>>) -> bool
    decreases ls.len(),
{
    ls.len() > 0 && (any_table_row(ls.drop_last()) || is_table_row(trim(ls.last())))
}

/// Some line is a table row with two or more cells.
pub open spec fn any_multi_cell_row(ls: Seq<Seq<char>>) -> bool
    decreases ls.len(),
{
    ls.len() > 0 && (any_multi_cell_row(ls.drop_last()) || is_multi_cell_row(trim(ls.last())))
}

/// A row with several cells is a table row.
pub proof fn lemma_multi_cell_is_table(ls: Seq<Seq<char>>)
    ensures
        any_multi_cell_row(ls) ==> any_table_row(ls),
    decreases ls.len(),
{
    if ls.len() > 0 {
        lemma_multi_cell_is_table(ls.drop_last());
    }
}

/// Some line holds text and is no table row.
pub open spec fn any_plain_line(ls: Seq<Seq<char>>) -> bool
    decreases ls.len(),
{
    ls.len() > 0 && (any_plain_line(ls.drop_last()) || {
        let t = trim(ls.last());
        t.len() > 0 && !is_table_row(t)
    })
}

/// Trimmed contents of the single-cell table rows, in order.
pub open spec fn single_cell_rows(ls: Seq<Seq<char>>) -> Seq<Seq<char>>
    decreases ls.len(),
{
    if ls.len() == 0 {
        Seq::empty()
    } else {
        let prev = single_cell_rows(ls.drop_last());
        let t = trim(ls.last());
        if is_table_row(t) && !row_inner(t).contains('|') {
            prev.push(trim(row_inner(t)))
        } else {
            prev
        }
    }
}

/// The views of borrowed strings.
pub open spec fn str_views(ls: Seq<&str>) -> Seq<Seq<char>> {
    ls.map_values(|l: &str| l@)
}

fn has_bar(v: &Vec<char>, a: usize, b: usize) -> (res: bool)
    requires
        a <= b <= v.len(),
    ensures
        res == v@.subrange(a as int, b as int).contains('|'),
{
    let mut k = a;
    while k < b
        invariant
            a <= k <= b <= v.len(),
            forall|j: int| a <= j < k ==> v@[j] != '|',
        decreases b - k,
    {
        if v[k] == '|' {
            assert(v@.subrange(a as int, b as int)[k - a] == '|');
            return true;
        }
        k = k + 1;
    }
    assert(!v@.subrange(a as int, b as int).contains('|')) by {
        if v@.subrange(a as int, b as int).contains('|') {
            let j = choose|j: int|
                0 <= j < b - a && v@.subrange(a as int, b as int)[j] == '|';
            assert(v@[a + j] == '|');
        }
    }
    false
}

/// Detects a creole table in the lines of an action's text: none without
/// table rows; multi-column when a row has two cells or more; otherwise
/// single-column with the trimmed cell of each row, unless another line
/// holds text.
pub fn classify_activity_table_lines(lines: &[&str]) -> (res: Option<ActivityTableKind>)
    ensures
        res is None <==> (!any_table_row(str_views(lines@)) || (!any_multi_cell_row(
            str_views(lines@),
        ) && any_plain_line(str_views(lines@)))),
        (res matches Some(ActivityTableKind::MultiColumn)) <==> any_multi_cell_row(
            str_views(lines@),
        ),
        res matches Some(ActivityTableKind::SingleColumn { rows }) ==> string_views(rows@)
            == single_cell_rows(str_views(lines@)),
{
    let mut saw_table = false;
    let mut saw_multi_column = false;
    let mut saw_nonempty_non_table = false;
    let mut single_column_rows: Vec<String> = Vec::new();
    for i in 0..lines.len()
        invariant
            saw_table == any_table_row(str_views(lines@.take(i as int))),
            saw_multi_column == any_multi_cell_row(str_views(lines@.take(i as int))),
            saw_nonempty_non_table == any_plain_line(str_views(lines@.take(i as int))),
            string_views(single_column_rows@) == single_cell_rows(str_views(lines@.take(i as int))),
    {
        assert(str_views(lines@.take(i + 1)).drop_last() =~= str_views(lines@.take(i as int)));
        assert(str_views(lines@.take(i + 1)).last() == lines@[i as int]@);
        let v = chars_of(lines[i]);
        let t = trim_chars(&v);
        let n = t.len();
        if n > 2 && t[0] == '|' && t[n - 1] == '|' {
            saw_table = true;
            if has_bar(&t, 1, n - 1) {
                saw_multi_column = true;
            } else {
                let inner = crate::text::slice_chars(&t, 1, n - 1);
                let cell = trim_chars(&inner);
                single_column_rows.push(string_of(&cell));
            }
        } else if n > 0 {
            saw_nonempty_non_table = true;
        }
    }
    assert(lines@.take(lines.len() as int) =~= lines@);
    proof {
        lemma_multi_cell_is_table(str_views(lines@));
    }
    if !saw_table {
        return None;
    }
    if saw_multi_column {
        return Some(ActivityTableKind::MultiColumn);
    }
    if saw_nonempty_non_table {
        return None;
    }
    Some(ActivityTableKind::SingleColumn { rows: single_column_rows })
}

/// First index of the run of notes that holds index `k`.
pub open spec fn note_run_start(ks: Seq<ActivityNodeKindLayout>, k: int) -> int
    decreases k,
{
    if k > 0 && !flow_kind(ks[k - 1]) {
        note_run_start(ks, k - 1)
    } else {
        k
    }
}

/// Index just past the run of notes that holds index `k`.
pub open spec fn note_run_end(ks: Seq<ActivityNodeKindLayout>, k: int) -> int
    decreases ks.len() - k,
{
    if 0 <= k && k + 1 < ks.len() && !flow_kind(ks[k + 1]) {
        note_run_end(ks, k + 1)
    } else {
        k + 1
    }
}

/// A note kind with its mode replaced.
pub open spec fn with_mode(kind: ActivityNodeKindLayout, mode: ActivityNoteModeLayout) -> ActivityNodeKindLayout {
    match kind {
        ActivityNodeKindLayout::Note { position, .. } => ActivityNodeKindLayout::Note { position, mode },
        ActivityNodeKindLayout::FloatingNote { position, .. } => ActivityNodeKindLayout::FloatingNote {
            position,
            mode,
        },
        _ => kind,
    }
}

/// Kind of node `k` once note modes are assigned: the notes that follow a
/// flow node are drawn alone when there is one, grouped when there are
/// several; notes before the first flow node and flow nodes keep their
/// kind.
pub open spec fn moded_kind(ks: Seq<ActivityNodeKindLayout>, k: int) -> ActivityNodeKindLayout {
    if !flow_kind(ks[k]) && note_run_start(ks, k) > 0 {
        with_mode(
            ks[k],
            if note_run_end(ks, k) - note_run_start(ks, k) == 1 {
                ActivityNoteModeLayout::Single
            } else {
                ActivityNoteModeLayout::Grouped
            },
        )
    } else {
        ks[k]
    }
}

proof fn lemma_run_start(ks: Seq<ActivityNodeKindLayout>, a: int, k: int)
    requires
        0 <= a <= k < ks.len(),
        a == 0 || flow_kind(ks[a - 1]),
        forall|g: int| a <= g <= k ==> !flow_kind(#[trigger] ks[g]),
    ensures
        note_run_start(ks, k) == a,
    decreases k - a,
{
    if k > a {
        lemma_run_start(ks, a, k - 1);
    }
}

proof fn lemma_run_end(ks: Seq<ActivityNodeKindLayout>, k: int, e: int)
    requires
        0 <= k < e <= ks.len(),
        e == ks.len() || flow_kind(ks[e]),
        forall|g: int| k <= g < e ==> !flow_kind(#[trigger] ks[g]),
    ensures
        note_run_end(ks, k) == e,
    decreases e - k,
{
    if k + 1 < e {
        lemma_run_end(ks, k + 1, e);
    }
}

/// The notes right after a flow node share one mode: a lone note is drawn
/// alone, two or more are grouped. Each keeps its sort and its side.
pub proof fn lemma_note_run_mode(ks: Seq<ActivityNodeKindLayout>, f: int, g: int, k: int)
    requires
        0 <= f < k < g <= ks.len(),
        !(ks[f] is Note || ks[f] is FloatingNote),
        forall|t: int| f < t < g ==> (#[trigger] ks[t] is Note || ks[t] is FloatingNote),
        g == ks.len() || !(ks[g] is Note || ks[g] is FloatingNote),
    ensures
        match (ks[k], moded_kind(ks, k)) {
            (ActivityNodeKindLayout::Note { position: p0, .. }, ActivityNodeKindLayout::Note { position, mode }) => p0
                == position && mode == (if g == f + 2 {
                ActivityNoteModeLayout::Single
            } else {
                ActivityNoteModeLayout::Grouped
            }),
            (
                ActivityNodeKindLayout::FloatingNote { position: p0, .. },
                ActivityNodeKindLayout::FloatingNote { position, mode },
            ) => p0 == position && mode == (if g == f + 2 {
                ActivityNoteModeLayout::Single
            } else {
                ActivityNoteModeLayout::Grouped
            }),
            _ => false,
        },
{
    assert forall|t: int| f + 1 <= t <= k implies !flow_kind(#[trigger] ks[t]) by {
        assert(ks[t] is Note || ks[t] is FloatingNote);
    }
    lemma_run_start(ks, f + 1, k);
    assert forall|t: int| k <= t < g implies !flow_kind(#[trigger] ks[t]) by {
        assert(ks[t] is Note || ks[t] is FloatingNote);
    }
    lemma_run_end(ks, k, g);
    assert(ks[k] is Note || ks[k] is FloatingNote);
}

/// Notes before the first flow node keep their kind.
pub proof fn lemma_leading_notes_kept(ks: Seq<ActivityNodeKindLayout>, k: int)
    requires
        0 <= k < ks.len(),
        forall|t: int| 0 <= t <= k ==> (#[trigger] ks[t] is Note || ks[t] is FloatingNote),
    ensures
        moded_kind(ks, k) == ks[k],
{
    assert forall|t: int| 0 <= t <= k implies !flow_kind(#[trigger] ks[t]) by {
        assert(ks[t] is Note || ks[t] is FloatingNote);
    }
    lemma_run_start(ks, 0, k);
}

fn set_note_mode(kind: &ActivityNodeKindLayout, mode: ActivityNoteModeLayout) -> (res: ActivityNodeKindLayout)
    ensures
        res == with_mode(*kind, mode),
{
    match kind {
        ActivityNodeKindLayout::Note { position, .. } => ActivityNodeKindLayout::Note { position: *position, mode },
        ActivityNodeKindLayout::FloatingNote { position, .. } => ActivityNodeKindLayout::FloatingNote {
            position: *position,
            mode,
        },
        _ => *kind,
    }
}

/// Decides how notes are drawn: each run of notes that follows a flow
/// node is drawn alone if it is a single note and grouped otherwise.
pub fn assign_note_modes(kinds: &mut Vec<ActivityNodeKindLayout>)
    ensures
        final(kinds)@.len() == old(kinds)@.len(),
        forall|k: int| 0 <= k < old(kinds)@.len() ==> #[trigger] final(kinds)@[k] == moded_kind(old(kinds)@, k),
{
    let ghost ks = kinds@;
    let n = kinds.len();
    let mut i: usize = 0;
    while i < n
        invariant
            n == kinds.len() == ks.len(),
            i <= n,
            forall|k: int| 0 <= k < i ==> #[trigger] kinds@[k] == moded_kind(ks, k),
            forall|k: int| i <= k < n ==> #[trigger] kinds@[k] == ks[k],
            (forall|k: int| 0 <= k < i ==> !flow_kind(#[trigger] ks[k])) || i == n || flow_kind(ks[i as int]),
        decreases n - i,
    {
        if !is_flow_node(&kinds[i]) {
            proof {
                lemma_run_start(ks, 0, i as int);
            }
            i = i + 1;
        } else {
            let mut j = i + 1;
            while j < n && !is_flow_node(&kinds[j])
                invariant
                    n == kinds.len() == ks.len(),
                    i < j <= n,
                    forall|k: int| i <= k < n ==> #[trigger] kinds@[k] == ks[k],
                    forall|g: int| i < g < j ==> !flow_kind(#[trigger] ks[g]),
                decreases n - j,
            {
                j = j + 1;
            }
            let mode = if j - i - 1 == 1 {
                ActivityNoteModeLayout::Single
            } else {
                ActivityNoteModeLayout::Grouped
            };
            let mut k = i + 1;
            while k < j
                invariant
                    n == kinds.len() == ks.len(),
                    i < j <= n,
                    i < k <= j,
                    flow_kind(ks[i as int]),
                    j == n || flow_kind(ks[j as int]),
                    forall|g: int| i < g < j ==> !flow_kind(#[trigger] ks[g]),
                    mode == (if j - i - 1 == 1 {
                        ActivityNoteModeLayout::Single
                    } else {
                        ActivityNoteModeLayout::Grouped
                    }),
                    forall|g: int| 0 <= g <= i ==> #[trigger] kinds@[g] == moded_kind(ks, g) || g == i,
                    kinds@[i as int] == ks[i as int],
                    forall|g: int| 0 <= g < i ==> #[trigger] kinds@[g] == moded_kind(ks, g),
                    forall|g: int| i < g < k ==> #[trigger] kinds@[g] == moded_kind(ks, g),
                    forall|g: int| k <= g < n ==> #[trigger] kinds@[g] == ks[g],
                decreases j - k,
            {
                proof {
                    lemma_run_start(ks, i + 1, k as int);
                    lemma_run_end(ks, k as int, j as int);
                }
                let updated = set_note_mode(&kinds[k], mode);
                kinds.set(k, updated);
                k = k + 1;
            }
            assert(kinds@[i as int] == moded_kind(ks, i as int));
            i = j;
        }
    }
}

/// Assigning note modes touches notes only: flow nodes keep their kind,
/// and a note stays a note of the same sort on the same side.
pub proof fn lemma_modes_touch_only_notes(ks: Seq<ActivityNodeKindLayout>, k: int)
    requires
        0 <= k < ks.len(),
    ensures
        flow_kind(ks[k]) ==> moded_kind(ks, k) == ks[k],
        ks[k] matches ActivityNodeKindLayout::Note { position, .. } ==> moded_kind(ks, k) matches ActivityNodeKindLayout::Note { position: p2, .. } && p2 == position,
        ks[k] matches ActivityNodeKindLayout::FloatingNote { position, .. } ==> moded_kind(ks, k) matches ActivityNodeKindLayout::FloatingNote { position: p2, .. } && p2 == position,
{
}

/// Positions of the flow nodes, in order.
pub open spec fn flow_positions(ks: Seq<ActivityNodeKindLayout>) -> Seq<usize>
    decreases ks.len(),
{
    if ks.len() == 0 {
        Seq::empty()
    } else {
        let prev = flow_positions(ks.drop_last());
        if flow_kind(ks.last()) {
            prev.push((ks.len() - 1) as usize)
        } else {
            prev
        }
    }
}

/// Edges of the sequential flow: each flow node to the next flow node,
/// notes skipped.
pub open spec fn flow_pairs(ks: Seq<ActivityNodeKindLayout>) -> Seq<(usize, usize)> {
    let fp = flow_positions(ks);
    if fp.len() < 2 {
        Seq::empty()
    } else {
        Seq::new((fp.len() - 1) as nat, |i: int| (fp[i], fp[i + 1]))
    }
}

/// The node pairs that flow edges connect: every flow node to the next
/// flow node, with notes skipped.
pub fn flow_edge_pairs(kinds: &Vec<ActivityNodeKindLayout>) -> (res: Vec<(usize, usize)>)
    ensures
        res@ == flow_pairs(kinds@),
{
    let mut flow: Vec<usize> = Vec::new();
    for k in 0..kinds.len()
        invariant
            flow@ == flow_positions(kinds@.take(k as int)),
    {
        assert(kinds@.take(k + 1).drop_last() =~= kinds@.take(k as int));
        if is_flow_node(&kinds[k]) {
            flow.push(k);
        }
    }
    assert(kinds@.take(kinds.len() as int) =~= kinds@);
    let mut res: Vec<(usize, usize)> = Vec::new();
    if flow.len() < 2 {
        return res;
    }
    for i in 0..flow.len() - 1
        invariant
            flow.len() >= 2,
            res.len() == i,
            forall|j: int| 0 <= j < i ==> #[trigger] res@[j] == (flow@[j], flow@[j + 1]),
    {
        res.push((flow[i], flow[i + 1]));
    }
    assert(res@ =~= flow_pairs(kinds@));
    res
}

proof fn lemma_flow_positions(ks: Seq<ActivityNodeKindLayout>)
    requires
        ks.len() <= usize::MAX,
    ensures
        forall|i: int|
            0 <= i < flow_positions(ks).len() ==> (#[trigger] flow_positions(ks)[i]) < ks.len()
                && flow_kind(ks[flow_positions(ks)[i] as int]),
        forall|i: int, j: int|
            0 <= i < j < flow_positions(ks).len() ==> #[trigger] flow_positions(ks)[i]
                < #[trigger] flow_positions(ks)[j],
        forall|k: int|
            0 <= k < ks.len() && flow_kind(#[trigger] ks[k]) ==> flow_positions(ks).contains(k as usize),
    decreases ks.len(),
{
    if ks.len() > 0 {
        let d = ks.drop_last();
        lemma_flow_positions(d);
        let prev = flow_positions(d);
        let cur = flow_positions(ks);
        let last = (ks.len() - 1) as usize;
        if flow_kind(ks.last()) {
            assert(cur == prev.push(last));
        } else {
            assert(cur == prev);
        }
        assert forall|i: int| 0 <= i < cur.len() implies (#[trigger] cur[i]) < ks.len() && flow_kind(
            ks[cur[i] as int],
        ) by {
            if i < prev.len() {
                assert(cur[i] == prev[i]);
                assert(d[prev[i] as int] == ks[prev[i] as int]);
            } else {
                assert(cur[i] == last);
            }
        }
        assert forall|i: int, j: int| 0 <= i < j < cur.len() implies #[trigger] cur[i] < #[trigger] cur[j] by {
            assert(cur[i] == prev[i]);
            if j < prev.len() {
                assert(cur[j] == prev[j]);
            } else {
                assert(cur[j] == last);
            }
        }
        assert forall|k: int| 0 <= k < ks.len() && flow_kind(#[trigger] ks[k]) implies flow_positions(ks).contains(k as usize) by {
            if k < ks.len() - 1 {
                assert(d[k] == ks[k]);
                let t = choose|t: int| 0 <= t < prev.len() && prev[t] == k as usize;
                if flow_kind(ks.last()) {
                    assert(prev.push((ks.len() - 1) as usize)[t] == k as usize);
                }
            } else {
                assert(prev.push((ks.len() - 1) as usize)[prev.len() as int] == k as usize);
            }
        }
    }
}

/// Flow edges skip notes: every edge joins two flow nodes, going
/// forward, and no flow node lies between its ends.
pub proof fn lemma_flow_edges_skip_notes(ks: Seq<ActivityNodeKindLayout>, e: int)
    requires
        ks.len() <= usize::MAX,
        0 <= e < flow_pairs(ks).len(),
    ensures
        flow_pairs(ks)[e].0 < flow_pairs(ks)[e].1 < ks.len(),
        flow_kind(ks[flow_pairs(ks)[e].0 as int]),
        flow_kind(ks[flow_pairs(ks)[e].1 as int]),
        forall|k: int|
            flow_pairs(ks)[e].0 < k < flow_pairs(ks)[e].1 ==> !flow_kind(#[trigger] ks[k]),
{
    lemma_flow_positions(ks);
    let fp = flow_positions(ks);
    assert(flow_pairs(ks)[e] == (fp[e], fp[e + 1]));
    assert forall|k: int| fp[e] < k < fp[e + 1] implies !flow_kind(#[trigger] ks[k]) by {
        if flow_kind(ks[k]) {
            let t = choose|t: int| 0 <= t < fp.len() && fp[t] == k as usize;
            if t <= e {
                if t < e {
                    assert(fp[t] < fp[e]);
                }
            } else if t >= e + 1 {
                if t > e + 1 {
                    assert(fp[e + 1] < fp[t]);
                }
            }
        }
    }
}


/// Every two consecutive flow nodes are joined: for flow nodes `i < j` with
/// only notes between them, one flow edge runs from `i` to `j`.
pub proof fn lemma_flow_edges_join_neighbours(ks: Seq<ActivityNodeKindLayout>, i: int, j: int)
    requires
        ks.len() <= usize::MAX,
        0 <= i < j < ks.len(),
        flow_kind(ks[i]),
        flow_kind(ks[j]),
        forall|k: int| i < k < j ==> !flow_kind(#[trigger] ks[k]),
    ensures
        exists|e: int| 0 <= e < flow_pairs(ks).len() && #[trigger] flow_pairs(ks)[e] == (i as usize, j as usize),
{
    lemma_flow_positions(ks);
    let fp = flow_positions(ks);
    assert(fp.contains(i as usize));
    assert(fp.contains(j as usize));
    let a = choose|a: int| 0 <= a < fp.len() && fp[a] == i as usize;
    let b = choose|b: int| 0 <= b < fp.len() && fp[b] == j as usize;
    if b <= a {
        if b < a {
            assert(fp[b] < fp[a]);
        }
        assert(false);
    }
    if b > a + 1 {
        assert(fp[a] < fp[a + 1]);
        assert(fp[a + 1] < fp[b]);
        let m = fp[a + 1] as int;
        assert(flow_kind(ks[m]));
        assert(false);
    }
    assert(flow_pairs(ks)[a] == (i as usize, j as usize));
}

/// Flow edges form one chain: each edge starts where the one before it
/// ends, so no edge is repeated and the chain visits the flow nodes in order.
pub proof fn lemma_flow_edges_chain(ks: Seq<ActivityNodeKindLayout>, e: int)
    requires
        0 <= e < flow_pairs(ks).len() - 1,
    ensures
        flow_pairs(ks)[e].1 == flow_pairs(ks)[e + 1].0,
{
}

/// Position of the first lane called `name` at or after `i`, or 0 when no
/// lane there has that name.
pub open spec fn lane_index_from(lanes: Seq<Seq<char>>, name: Seq<char>, i: int) -> int
    decreases lanes.len() - i,
{
    if i < 0 || i >= lanes.len() {
        0
    } else if lanes[i] == name {
        i
    } else {
        lane_index_from(lanes, name, i + 1)
    }
}

proof fn lemma_lane_index_from(lanes: Seq<Seq<char>>, name: Seq<char>, i: int, r: int)
    requires
        0 <= i,
        forall|j: int| i <= j < r && j < lanes.len() ==> lanes[j] != name,
        (i <= r < lanes.len() && lanes[r] == name) || (r == 0 && forall|j: int|
            i <= j < lanes.len() ==> lanes[j] != name),
    ensures
        lane_index_from(lanes, name, i) == r,
    decreases lanes.len() - i,
{
    if i < lanes.len() && lanes[i] != name {
        lemma_lane_index_from(lanes, name, i + 1, r);
    }
}

/// What an activity event means for the swimlanes: a switch to the lane
/// named, an event that draws a node, or one that draws none (a jump to or
/// from a sync bar).
#[derive(Debug, Clone)]
pub enum ActivityLaneEvent {
    Swimlane { name: String },
    Node,
    NoNode,
}

/// Lanes of the nodes that `events` draw, when the current lane is `cur`:
/// each node sits in the lane of the last switch before it.
pub open spec fn node_lanes_from(events: Seq<ActivityLaneEvent>, lanes: Seq<Seq<char>>, cur: int) -> Seq<int>
    decreases events.len(),
{
    if events.len() == 0 {
        Seq::empty()
    } else {
        match events[0] {
            ActivityLaneEvent::Swimlane { name } => node_lanes_from(
                events.drop_first(),
                lanes,
                lane_index_from(lanes, name@, 0),
            ),
            ActivityLaneEvent::Node => seq![cur] + node_lanes_from(events.drop_first(), lanes, cur),
            ActivityLaneEvent::NoNode => node_lanes_from(events.drop_first(), lanes, cur),
        }
    }
}

/// The swimlane of each node, replaying the events in order from the first
/// lane.
pub fn node_swimlanes(events: &[ActivityLaneEvent], swimlanes: &[String]) -> (res: Vec<usize>)
    ensures
        res@.map_values(|x: usize| x as int) == node_lanes_from(events@, string_views(swimlanes@), 0),
{
    let ghost lanes = string_views(swimlanes@);
    let mut out: Vec<usize> = Vec::new();
    let mut cur: usize = 0;
    let mut k: usize = 0;
    assert(events@.skip(0) =~= events@);
    while k < events.len()
        invariant
            k <= events.len(),
            lanes == string_views(swimlanes@),
            node_lanes_from(events@, lanes, 0) == out@.map_values(|x: usize| x as int) + node_lanes_from(
                events@.skip(k as int),
                lanes,
                cur as int,
            ),
        decreases events.len() - k,
    {
        let ghost rest = events@.skip(k as int);
        assert(rest[0] == events@[k as int]);
        assert(rest.drop_first() =~= events@.skip(k + 1));
        let ghost before = out@;
        match &events[k] {
            ActivityLaneEvent::Swimlane { name } => {
                let r = resolve_swimlane_index(swimlanes, name.as_str());
                proof {
                    lemma_lane_index_from(lanes, name@, 0, r as int);
                }
                cur = r;
            },
            ActivityLaneEvent::Node => {
                out.push(cur);
                assert(out@.map_values(|x: usize| x as int) =~= before.map_values(|x: usize| x as int) + seq![cur as int]);
            },
            ActivityLaneEvent::NoNode => {},
        }
        k = k + 1;
    }
    assert(events@.skip(k as int).len() == 0);
    assert(out@.map_values(|x: usize| x as int) + Seq::<int>::empty() =~= out@.map_values(|x: usize| x as int));
    out
}


/// Number of node-drawing events among the first `k` of `events`.
pub open spec fn nodes_before(events: Seq<ActivityLaneEvent>, k: int) -> nat
    decreases k,
{
    if k <= 0 || events.len() == 0 {
        0
    } else {
        (if events[0] is Node { 1nat } else { 0nat }) + nodes_before(events.drop_first(), k - 1)
    }
}

/// The current lane after the first `k` events, starting from `cur`.
spec fn lane_after(events: Seq<ActivityLaneEvent>, lanes: Seq<Seq<char>>, cur: int, k: int) -> int
    decreases k,
{
    if k <= 0 || events.len() == 0 {
        cur
    } else {
        lane_after(
            events.drop_first(),
            lanes,
            match events[0] {
                ActivityLaneEvent::Swimlane { name } => lane_index_from(lanes, name@, 0),
                _ => cur,
            },
            k - 1,
        )
    }
}

proof fn lemma_node_lane_at(events: Seq<ActivityLaneEvent>, lanes: Seq<Seq<char>>, cur: int, k: int)
    requires
        0 <= k < events.len(),
        events[k] is Node,
    ensures
        nodes_before(events, k) < node_lanes_from(events, lanes, cur).len(),
        node_lanes_from(events, lanes, cur)[nodes_before(events, k) as int] == lane_after(events, lanes, cur, k),
    decreases k,
{
    let d = events.drop_first();
    if k > 0 {
        assert(d[k - 1] == events[k]);
        match events[0] {
            ActivityLaneEvent::Swimlane { name } => {
                lemma_node_lane_at(d, lanes, lane_index_from(lanes, name@, 0), k - 1);
            },
            ActivityLaneEvent::Node => {
                lemma_node_lane_at(d, lanes, cur, k - 1);
            },
            ActivityLaneEvent::NoNode => {
                lemma_node_lane_at(d, lanes, cur, k - 1);
            },
        }
    }
}

proof fn lemma_lane_no_switch(events: Seq<ActivityLaneEvent>, lanes: Seq<Seq<char>>, cur: int, k: int)
    requires
        0 <= k <= events.len(),
        forall|t: int| 0 <= t < k ==> !(#[trigger] events[t] is Swimlane),
    ensures
        lane_after(events, lanes, cur, k) == cur,
    decreases k,
{
    if k > 0 {
        let d = events.drop_first();
        assert forall|t: int| 0 <= t < k - 1 implies !(#[trigger] d[t] is Swimlane) by {
            assert(d[t] == events[t + 1]);
        }
        assert(!(events[0] is Swimlane));
        lemma_lane_no_switch(d, lanes, cur, k - 1);
    }
}

proof fn lemma_lane_last_switch(
    events: Seq<ActivityLaneEvent>,
    lanes: Seq<Seq<char>>,
    cur: int,
    w: int,
    k: int,
    name: String,
)
    requires
        0 <= w < k <= events.len(),
        events[w] == (ActivityLaneEvent::Swimlane { name }),
        forall|t: int| w < t < k ==> !(#[trigger] events[t] is Swimlane),
    ensures
        lane_after(events, lanes, cur, k) == lane_index_from(lanes, name@, 0),
    decreases w,
{
    let d = events.drop_first();
    if w == 0 {
        assert forall|t: int| 0 <= t < k - 1 implies !(#[trigger] d[t] is Swimlane) by {
            assert(d[t] == events[t + 1]);
        }
        lemma_lane_no_switch(d, lanes, lane_index_from(lanes, name@, 0), k - 1);
    } else {
        assert(d[w - 1] == events[w]);
        assert forall|t: int| w - 1 < t < k - 1 implies !(#[trigger] d[t] is Swimlane) by {
            assert(d[t] == events[t + 1]);
        }
        let next = match events[0] {
            ActivityLaneEvent::Swimlane { name } => lane_index_from(lanes, name@, 0),
            _ => cur,
        };
        lemma_lane_last_switch(d, lanes, next, w - 1, k - 1, name);
    }
}

/// Each node sits in the lane of the last lane switch before it (the first
/// lane of that name, or the first lane when none has it), and in the
/// first lane when no switch comes before it. The node drawn by event `k`
/// is the `nodes_before(events, k)`-th node.
pub proof fn lemma_node_in_lane_of_last_switch(events: Seq<ActivityLaneEvent>, lanes: Seq<Seq<char>>, k: int)
    requires
        0 <= k < events.len(),
        events[k] is Node,
    ensures
        nodes_before(events, k) < node_lanes_from(events, lanes, 0).len(),
        (forall|t: int| 0 <= t < k ==> !(#[trigger] events[t] is Swimlane)) ==> node_lanes_from(events, lanes, 0)[nodes_before(
            events,
            k,
        ) as int] == 0,
        forall|w: int|
            0 <= w < k && (forall|t: int| w < t < k ==> !(#[trigger] events[t] is Swimlane)) ==> (
            #[trigger] events[w] matches ActivityLaneEvent::Swimlane { name } ==> {
                let r = node_lanes_from(events, lanes, 0)[nodes_before(events, k) as int];
                ||| 0 <= r < lanes.len() && lanes[r] == name@ && forall|j: int| 0 <= j < r ==> lanes[j] != name@
                ||| r == 0 && forall|j: int| 0 <= j < lanes.len() ==> lanes[j] != name@
            }),
{
    lemma_node_lane_at(events, lanes, 0, k);
    if forall|t: int| 0 <= t < k ==> !(#[trigger] events[t] is Swimlane) {
        lemma_lane_no_switch(events, lanes, 0, k);
    }
    assert forall|w: int|
        0 <= w < k && (forall|t: int| w < t < k ==> !(#[trigger] events[t] is Swimlane)) implies (
        #[trigger] events[w] matches ActivityLaneEvent::Swimlane { name } ==> {
            let r = node_lanes_from(events, lanes, 0)[nodes_before(events, k) as int];
            ||| 0 <= r < lanes.len() && lanes[r] == name@ && forall|j: int| 0 <= j < r ==> lanes[j] != name@
            ||| r == 0 && forall|j: int| 0 <= j < lanes.len() ==> lanes[j] != name@
        }) by {
        match events[w] {
            ActivityLaneEvent::Swimlane { name } => {
                lemma_lane_last_switch(events, lanes, 0, w, k, name);
                lemma_lane_index_from_spec(lanes, name@, 0);
            },
            _ => {},
        }
    }
}

proof fn lemma_lane_index_from_spec(lanes: Seq<Seq<char>>, name: Seq<char>, i: int)
    requires
        0 <= i,
    ensures
        ({
            let r = lane_index_from(lanes, name, i);
            ||| i <= r < lanes.len() && lanes[r] == name && forall|j: int| i <= j < r ==> lanes[j] != name
            ||| r == 0 && forall|j: int| i <= j < lanes.len() ==> lanes[j] != name
        }),
    decreases lanes.len() - i,
{
    if i < lanes.len() && lanes[i] != name {
        lemma_lane_index_from_spec(lanes, name, i + 1);
    }
}


/// One lane per node-drawing event.
pub proof fn lemma_one_lane_per_node(events: Seq<ActivityLaneEvent>, lanes: Seq<Seq<char>>, cur: int)
    ensures
        node_lanes_from(events, lanes, cur).len() == nodes_before(events, events.len() as int),
    decreases events.len(),
{
    if events.len() > 0 {
        let next = match events[0] {
            ActivityLaneEvent::Swimlane { name } => lane_index_from(lanes, name@, 0),
            _ => cur,
        };
        lemma_one_lane_per_node(events.drop_first(), lanes, next);
    }
}

} // verus!
