//! Text handling and tile-sequence rules of the Teoz sequence-diagram builder.
use vstd::prelude::*;

use crate::text::{chars_of, string_of};

verus! {

/// Legacy escape handling after `\n` splitting: `\\` becomes `\`, `\t`
/// becomes a tab, any other backslash pair is kept as it is.
pub open spec fn unescaped(s: Seq<char>) -> Seq<char>
    decreases s.len(),
{
    if s.len() >= 2 && s[0] == '\\' {
        let rest = unescaped(s.skip(2));
        if s[1] == '\\' {
            seq!['\\'] + rest
        } else if s[1] == 't' {
            seq!['\t'] + rest
        } else {
            seq![s[0], s[1]] + rest
        }
    } else if s.len() == 0 {
        s
    } else {
        seq![s[0]] + unescaped(s.drop_first())
    }
}

/// Unescapes PlantUML text escape sequences.
pub fn unescape_backslash(s: &str) -> (res: String)
    ensures
        res@ == unescaped(s@),
{
    let chars = chars_of(s);
    let mut out: Vec<char> = Vec::new();
    let mut i: usize = 0;
    assert(chars@.skip(0) == chars@);
    while i < chars.len()
        invariant
            i <= chars.len(),
            unescaped(chars@) == out@ + unescaped(chars@.skip(i as int)),
        decreases chars.len() - i,
    {
        let ghost t = chars@.skip(i as int);
        if chars[i] == '\\' && i + 1 < chars.len() {
            assert(t.skip(2) == chars@.skip(i + 2));
            assert(t[1] == chars@[i + 1]);
            let c = chars[i + 1];
            if c == '\\' {
                out.push('\\');
            } else if c == 't' {
                out.push('\t');
            } else {
                out.push(chars[i]);
                out.push(c);
            }
            i = i + 2;
        } else {
            assert(t.drop_first() == chars@.skip(i + 1));
            out.push(chars[i]);
            i = i + 1;
        }
    }
    assert(chars@.skip(i as int).len() == 0);
    string_of(&out)
}

/// Text without backslashes is left as it is.
pub proof fn lemma_unescape_plain(s: Seq<char>)
    requires
        !s.contains('\\'),
    ensures
        unescaped(s) == s,
    decreases s.len(),
{
    if s.len() > 0 {
        assert(s[0] != '\\');
        assert forall|j: int| 0 <= j < s.drop_first().len() implies s.drop_first()[j] != '\\' by {
            assert(s.drop_first()[j] == s[j + 1]);
        }
        lemma_unescape_plain(s.drop_first());
        assert(seq![s[0]] + s.drop_first() =~= s);
    }
}


/// The kind of a tile of a Teoz sequence diagram, in the order the builder
/// lays them out.
#[derive(Debug, Clone, Copy, PartialEq, Eq, Structural)]
pub enum TeozTileKind {
    Communication,
    SelfMessage,
    LifeEvent,
    Note,
    NoteOver,
    Divider,
    Delay,
    Ref,
    FragmentStart,
    FragmentSeparator,
    FragmentEnd,
    Spacing,
    GroupStart,
    GroupEnd,
}

/// Position of the last tile before `end` that is not a life event, if any.
pub open spec fn last_non_life_event(tiles: Seq<TeozTileKind>, end: int) -> Option<int>
    decreases end,
{
    if end <= 0 {
        None
    } else if tiles[end - 1] == TeozTileKind::LifeEvent {
        last_non_life_event(tiles, end - 1)
    } else {
        Some(end - 1)
    }
}

/// Whether the last tile that is not a life event is a self message.
pub open spec fn ends_with_self_message(tiles: Seq<TeozTileKind>) -> bool {
    match last_non_life_event(tiles, tiles.len() as int) {
        Some(i) => tiles[i] == TeozTileKind::SelfMessage,
        None => false,
    }
}

/// Whether the last tile that is not a life event is a message of either kind.
pub open spec fn ends_with_message(tiles: Seq<TeozTileKind>) -> bool {
    match last_non_life_event(tiles, tiles.len() as int) {
        Some(i) => tiles[i] == TeozTileKind::SelfMessage || tiles[i] == TeozTileKind::Communication,
        None => false,
    }
}

/// The self message that directly precedes position `end`, life events
/// between them aside.
pub open spec fn preceding_self_message(tiles: Seq<TeozTileKind>, end: int) -> Option<int> {
    match last_non_life_event(tiles, end) {
        Some(i) => if tiles[i] == TeozTileKind::SelfMessage {
            Some(i)
        } else {
            None
        },
        None => None,
    }
}

proof fn lemma_last_non_life_event_bounds(tiles: Seq<TeozTileKind>, end: int)
    requires
        end <= tiles.len(),
    ensures
        last_non_life_event(tiles, end) matches Some(i) ==> 0 <= i < end
            && tiles[i] != TeozTileKind::LifeEvent,
    decreases end,
{
    if end > 0 && tiles[end - 1] == TeozTileKind::LifeEvent {
        lemma_last_non_life_event_bounds(tiles, end - 1);
    }
}

/// Walks back from `end` over life events; the position of the first other
/// tile met, if any.
fn last_non_life_event_before(tiles: &[TeozTileKind], end: usize) -> (res: Option<usize>)
    requires
        end <= tiles.len(),
    ensures
        match res {
            Some(i) => last_non_life_event(tiles@, end as int) == Some(i as int),
            None => last_non_life_event(tiles@, end as int) is None,
        },
        res matches Some(i) ==> i < end,
{
    proof {
        lemma_last_non_life_event_bounds(tiles@, end as int);
    }
    let mut i: usize = end;
    while i > 0
        invariant
            i <= end <= tiles.len(),
            last_non_life_event(tiles@, end as int) == last_non_life_event(tiles@, i as int),
        decreases i,
    {
        if tiles[i - 1] != TeozTileKind::LifeEvent {
            return Some(i - 1);
        }
        i = i - 1;
    }
    None
}

/// Whether the last tile that is not a life event is a self message.
pub fn is_last_tile_self_message(tiles: &[TeozTileKind]) -> (res: bool)
    ensures
        res == ends_with_self_message(tiles@),
{
    match last_non_life_event_before(tiles, tiles.len()) {
        Some(i) => tiles[i] == TeozTileKind::SelfMessage,
        None => false,
    }
}

/// Whether the last tile that is not a life event is a message: a
/// communication or a self message.
pub fn is_last_tile_any_message(tiles: &[TeozTileKind]) -> (res: bool)
    ensures
        res == ends_with_message(tiles@),
{
    match last_non_life_event_before(tiles, tiles.len()) {
        Some(i) => tiles[i] == TeozTileKind::SelfMessage || tiles[i] == TeozTileKind::Communication,
        None => false,
    }
}

/// The position of the self message that directly precedes the tile at
/// `tile_index`, life events between them aside; `None` when another tile
/// comes between or nothing precedes.
pub fn find_preceding_self_message(tiles: &[TeozTileKind], tile_index: usize) -> (res: Option<usize>)
    requires
        tile_index <= tiles.len(),
    ensures
        match res {
            Some(i) => preceding_self_message(tiles@, tile_index as int) == Some(i as int),
            None => preceding_self_message(tiles@, tile_index as int) is None,
        },
        res matches Some(i) ==> i < tile_index && tiles@[i as int] == TeozTileKind::SelfMessage,
{
    match last_non_life_event_before(tiles, tile_index) {
        Some(i) => if tiles[i] == TeozTileKind::SelfMessage {
            Some(i)
        } else {
            None
        },
        None => None,
    }
}

/// A tile sequence ends with a self message exactly when a self message
/// precedes its end; and ending with a self message is ending with a message.
pub proof fn lemma_self_message_ending(tiles: Seq<TeozTileKind>)
    ensures
        ends_with_self_message(tiles) <==> preceding_self_message(tiles, tiles.len() as int) is Some,
        ends_with_self_message(tiles) ==> ends_with_message(tiles),
{
}


/// What a sequence event means for the lifelines: a message (and whether it
/// runs in parallel with the one before), an activation, a deactivation or
/// the destruction of participant `p`, or anything else.
#[derive(Debug, Clone, Copy, PartialEq, Eq, Structural)]
pub enum LifeStep {
    Message { parallel: bool },
    Activate(usize),
    Deactivate(usize),
    Destroy(usize),
    Other,
}

/// An event drawn inline on the lifeline: an activation, a deactivation or
/// a destruction.
pub open spec fn is_life_step(e: LifeStep) -> bool {
    e is Activate || e is Deactivate || e is Destroy
}

/// The events before position `i` end with a message followed only by
/// inline lifeline events.
pub open spec fn follows_message(events: Seq<LifeStep>, i: int) -> bool
    decreases i,
{
    if i <= 0 || i > events.len() {
        false
    } else if events[i - 1] is Message {
        true
    } else {
        is_life_step(events[i - 1]) && follows_message(events, i - 1)
    }
}

/// The events after position `i` start with inline lifeline events and
/// then a parallel message.
pub open spec fn precedes_parallel(events: Seq<LifeStep>, i: int) -> bool
    decreases events.len() - i,
{
    if i < -1 || i + 1 >= events.len() {
        false
    } else if events[i + 1] == (LifeStep::Message { parallel: true }) {
        true
    } else {
        is_life_step(events[i + 1]) && precedes_parallel(events, i + 1)
    }
}

/// An inline lifeline event that belongs to a message which a parallel
/// message follows: it is drawn inside the parallel tile.
pub open spec fn in_parallel_tile(events: Seq<LifeStep>, i: int) -> bool {
    is_life_step(events[i]) && follows_message(events, i) && precedes_parallel(events, i)
}

proof fn lemma_follows_message_iff(events: Seq<LifeStep>, i: int)
    requires
        0 <= i <= events.len(),
    ensures
        follows_message(events, i) <==> exists|m: int|
            0 <= m < i && #[trigger] events[m] is Message && forall|k: int|
                m < k < i ==> #[trigger] is_life_step(events[k]),
    decreases i,
{
    if i > 0 {
        lemma_follows_message_iff(events, i - 1);
        if follows_message(events, i) && !(events[i - 1] is Message) {
            let m = choose|m: int|
                0 <= m < i - 1 && #[trigger] events[m] is Message && forall|k: int|
                    m < k < i - 1 ==> #[trigger] is_life_step(events[k]);
            assert forall|k: int| m < k < i implies #[trigger] is_life_step(events[k]) by {}
        }
        if exists|m: int|
            0 <= m < i && #[trigger] events[m] is Message && forall|k: int|
                m < k < i ==> #[trigger] is_life_step(events[k]) {
            let m = choose|m: int|
                0 <= m < i && #[trigger] events[m] is Message && forall|k: int|
                    m < k < i ==> #[trigger] is_life_step(events[k]);
            if m < i - 1 {
                assert(is_life_step(events[i - 1]));
                assert forall|k: int| m < k < i - 1 implies #[trigger] is_life_step(events[k]) by {}
                if !(events[i - 1] is Message) {
                    assert(follows_message(events, i - 1));
                }
            }
        }
    }
}

proof fn lemma_precedes_parallel_iff(events: Seq<LifeStep>, i: int)
    requires
        -1 <= i < events.len(),
    ensures
        precedes_parallel(events, i) <==> exists|q: int|
            i < q < events.len() && #[trigger] events[q] == (LifeStep::Message { parallel: true })
                && forall|k: int| i < k < q ==> #[trigger] is_life_step(events[k]),
    decreases events.len() - i,
{
    if i + 1 < events.len() {
        lemma_precedes_parallel_iff(events, i + 1);
        if precedes_parallel(events, i) && events[i + 1] != (LifeStep::Message { parallel: true }) {
            let q = choose|q: int|
                i + 1 < q < events.len() && #[trigger] events[q] == (LifeStep::Message { parallel: true })
                    && forall|k: int| i + 1 < k < q ==> #[trigger] is_life_step(events[k]);
            assert forall|k: int| i < k < q implies #[trigger] is_life_step(events[k]) by {}
        }
        if exists|q: int|
            i < q < events.len() && #[trigger] events[q] == (LifeStep::Message { parallel: true })
                && forall|k: int| i < k < q ==> #[trigger] is_life_step(events[k]) {
            let q = choose|q: int|
                i < q < events.len() && #[trigger] events[q] == (LifeStep::Message { parallel: true })
                    && forall|k: int| i < k < q ==> #[trigger] is_life_step(events[k]);
            if q > i + 1 {
                assert(is_life_step(events[i + 1]));
                assert forall|k: int| i + 1 < k < q implies #[trigger] is_life_step(events[k]) by {}
            }
        }
    }
}

/// An inline lifeline event is drawn inside a parallel tile exactly when a
/// message of either kind comes before it and a parallel message after it,
/// with only inline lifeline events in between on both sides.
pub proof fn lemma_parallel_tile_members(events: Seq<LifeStep>, i: int)
    requires
        0 <= i < events.len(),
    ensures
        in_parallel_tile(events, i) <==> {
            &&& (events[i] is Activate || events[i] is Deactivate || events[i] is Destroy)
            &&& exists|m: int|
                0 <= m < i && #[trigger] events[m] is Message && forall|k: int|
                    m < k < i ==> (#[trigger] events[k] is Activate || events[k] is Deactivate || events[k] is Destroy)
            &&& exists|q: int|
                i < q < events.len() && #[trigger] events[q] == (LifeStep::Message { parallel: true })
                    && forall|k: int|
                    i < k < q ==> (#[trigger] events[k] is Activate || events[k] is Deactivate || events[k] is Destroy)
        },
{
    lemma_follows_message_iff(events, i);
    lemma_precedes_parallel_iff(events, i);
    if follows_message(events, i) {
        let m = choose|m: int|
            0 <= m < i && #[trigger] events[m] is Message && forall|k: int|
                m < k < i ==> #[trigger] is_life_step(events[k]);
        assert forall|k: int| m < k < i implies (#[trigger] events[k] is Activate || events[k] is Deactivate
            || events[k] is Destroy) by {
            assert(is_life_step(events[k]));
        }
    }
    if exists|m: int|
        0 <= m < i && #[trigger] events[m] is Message && forall|k: int|
            m < k < i ==> (#[trigger] events[k] is Activate || events[k] is Deactivate || events[k] is Destroy) {
        let m = choose|m: int|
            0 <= m < i && #[trigger] events[m] is Message && forall|k: int|
                m < k < i ==> (#[trigger] events[k] is Activate || events[k] is Deactivate || events[k] is Destroy);
        assert forall|k: int| m < k < i implies #[trigger] is_life_step(events[k]) by {
            assert(events[k] is Activate || events[k] is Deactivate || events[k] is Destroy);
        }
    }
    if precedes_parallel(events, i) {
        let q = choose|q: int|
            i < q < events.len() && #[trigger] events[q] == (LifeStep::Message { parallel: true })
                && forall|k: int| i < k < q ==> #[trigger] is_life_step(events[k]);
        assert forall|k: int| i < k < q implies (#[trigger] events[k] is Activate || events[k] is Deactivate
            || events[k] is Destroy) by {
            assert(is_life_step(events[k]));
        }
    }
    if exists|q: int|
        i < q < events.len() && #[trigger] events[q] == (LifeStep::Message { parallel: true }) && forall|k: int|
            i < k < q ==> (#[trigger] events[k] is Activate || events[k] is Deactivate || events[k] is Destroy) {
        let q = choose|q: int|
            i < q < events.len() && #[trigger] events[q] == (LifeStep::Message { parallel: true })
                && forall|k: int|
                i < k < q ==> (#[trigger] events[k] is Activate || events[k] is Deactivate || events[k] is Destroy);
        assert forall|k: int| i < k < q implies #[trigger] is_life_step(events[k]) by {
            assert(events[k] is Activate || events[k] is Deactivate || events[k] is Destroy);
        }
    }
}

/// For each event, whether it is an inline lifeline event drawn inside a
/// parallel tile.
pub fn inside_tile_parallel(events: &[LifeStep]) -> (res: Vec<bool>)
    ensures
        res@.len() == events@.len(),
        forall|i: int| 0 <= i < events@.len() ==> #[trigger] res@[i] == in_parallel_tile(events@, i),
{
    let n = events.len();
    let mut after: Vec<bool> = Vec::new();
    let mut am: bool = false;
    for i in 0..n
        invariant
            n == events@.len(),
            after@.len() == i,
            am == follows_message(events@, i as int),
            forall|j: int| 0 <= j < i ==> #[trigger] after@[j] == follows_message(events@, j),
    {
        after.push(am);
        am = match events[i] {
            LifeStep::Message { .. } => true,
            LifeStep::Activate(_) | LifeStep::Deactivate(_) | LifeStep::Destroy(_) => am,
            LifeStep::Other => false,
        };
    }
    let mut res: Vec<bool> = Vec::new();
    for i in 0..n
        invariant
            res@.len() == i,
            forall|j: int| 0 <= j < i ==> !#[trigger] res@[j],
    {
        res.push(false);
    }
    let mut bp: bool = false;
    let mut i: usize = n;
    while i > 0
        invariant
            n == events@.len(),
            i <= n,
            res@.len() == n,
            after@.len() == n,
            forall|j: int| 0 <= j < n ==> #[trigger] after@[j] == follows_message(events@, j),
            bp == precedes_parallel(events@, i - 1),
            forall|j: int| i <= j < n ==> #[trigger] res@[j] == in_parallel_tile(events@, j),
        decreases i,
    {
        i = i - 1;
        let life = match events[i] {
            LifeStep::Activate(_) | LifeStep::Deactivate(_) | LifeStep::Destroy(_) => true,
            _ => false,
        };
        res.set(i, life && after[i] && bp);
        bp = if events[i] == (LifeStep::Message { parallel: true }) {
            true
        } else {
            life && bp
        };
    }
    res
}


/// An activation bar: the participant, the event that opened it, the event
/// that closed it (`None` when nothing did), and its nesting level from 1.
#[derive(Debug, Clone, Copy, PartialEq, Eq, Structural)]
pub struct ActivationSpan {
    pub participant: usize,
    pub start: usize,
    pub end: Option<usize>,
    pub level: usize,
}

/// An open activation: participant, opening event, level.
pub type OpenBar = (usize, usize, usize);

/// Number of open bars of participant `p`.
pub open spec fn open_count(open: Seq<OpenBar>, p: usize) -> nat
    decreases open.len(),
{
    if open.len() == 0 {
        0
    } else {
        open_count(open.drop_last(), p) + if open.last().0 == p { 1nat } else { 0nat }
    }
}

/// Position of the most recent open bar of participant `p`, or -1.
pub open spec fn last_open(open: Seq<OpenBar>, p: usize) -> int
    decreases open.len(),
{
    if open.len() == 0 {
        -1
    } else if open.last().0 == p {
        open.len() - 1
    } else {
        last_open(open.drop_last(), p)
    }
}

/// The bar `b` closed at event `end`.
pub open spec fn closed_bar(b: OpenBar, end: Option<usize>) -> ActivationSpan {
    ActivationSpan { participant: b.0, start: b.1, end, level: b.2 }
}

/// The open bars of participant `p` closed at event `end`, most recent
/// first.
pub open spec fn close_all(open: Seq<OpenBar>, p: usize, end: usize) -> Seq<ActivationSpan>
    decreases open.len(),
{
    if open.len() == 0 {
        Seq::empty()
    } else if open.last().0 == p {
        seq![closed_bar(open.last(), Some(end))] + close_all(open.drop_last(), p, end)
    } else {
        close_all(open.drop_last(), p, end)
    }
}

/// The open bars of participants other than `p`.
pub open spec fn others_open(open: Seq<OpenBar>, p: usize) -> Seq<OpenBar>
    decreases open.len(),
{
    if open.len() == 0 {
        open
    } else if open.last().0 == p {
        others_open(open.drop_last(), p)
    } else {
        others_open(open.drop_last(), p).push(open.last())
    }
}

/// Open bars and finished bars after event `i`, `e`: an activation opens a
/// bar one level above the participant's open ones; a deactivation closes
/// the participant's most recent bar, if any; a destruction closes all of
/// them, most recent first.
pub open spec fn life_step(state: (Seq<OpenBar>, Seq<ActivationSpan>), e: LifeStep, i: usize) -> (
    Seq<OpenBar>,
    Seq<ActivationSpan>,
) {
    let (open, done) = state;
    match e {
        LifeStep::Activate(p) => (open.push((p, i, (open_count(open, p) + 1) as usize)), done),
        LifeStep::Deactivate(p) => if last_open(open, p) >= 0 {
            let j = last_open(open, p);
            (open.remove(j), done.push(closed_bar(open[j], Some(i))))
        } else {
            (open, done)
        },
        LifeStep::Destroy(p) => (others_open(open, p), done + close_all(open, p, i)),
        _ => (open, done),
    }
}

/// Open and finished bars after the first `k` events.
pub open spec fn life_run(events: Seq<LifeStep>, k: int) -> (Seq<OpenBar>, Seq<ActivationSpan>)
    decreases k,
{
    if k <= 0 {
        (Seq::empty(), Seq::empty())
    } else {
        life_step(life_run(events, k - 1), events[k - 1], (k - 1) as usize)
    }
}

/// The activation bars of a diagram: those closed by its events, in the
/// order they close, then those left open, in the order they opened.
pub open spec fn activation_spans(events: Seq<LifeStep>) -> Seq<ActivationSpan> {
    let (open, done) = life_run(events, events.len() as int);
    done + open.map_values(|b: OpenBar| closed_bar(b, None))
}

/// Number of activations among the first `k` events.
pub open spec fn activate_count(events: Seq<LifeStep>, k: int) -> nat
    decreases k,
{
    if k <= 0 {
        0
    } else {
        activate_count(events, k - 1) + if events[k - 1] is Activate { 1nat } else { 0nat }
    }
}

proof fn lemma_last_open(open: Seq<OpenBar>, p: usize, j: int)
    requires
        -1 <= j < open.len(),
        j >= 0 ==> open[j].0 == p,
        forall|t: int| j < t < open.len() ==> open[t].0 != p,
    ensures
        last_open(open, p) == j,
    decreases open.len(),
{
    if open.len() > 0 && j < open.len() - 1 {
        lemma_last_open(open.drop_last(), p, j);
    }
}

proof fn lemma_open_count_bound(open: Seq<OpenBar>, p: usize)
    ensures
        open_count(open, p) <= open.len(),
    decreases open.len(),
{
    if open.len() > 0 {
        lemma_open_count_bound(open.drop_last(), p);
    }
}

proof fn lemma_destroy_sizes(open: Seq<OpenBar>, p: usize, end: usize)
    ensures
        close_all(open, p, end).len() + others_open(open, p).len() == open.len(),
    decreases open.len(),
{
    if open.len() > 0 {
        lemma_destroy_sizes(open.drop_last(), p, end);
    }
}

/// Every bar, open or finished, has level at least 1.
spec fn levels_positive(state: (Seq<OpenBar>, Seq<ActivationSpan>)) -> bool {
    &&& forall|t: int| 0 <= t < state.0.len() ==> (#[trigger] state.0[t]).2 >= 1
    &&& forall|t: int| 0 <= t < state.1.len() ==> (#[trigger] state.1[t]).level >= 1
}

proof fn lemma_destroy_levels(open: Seq<OpenBar>, p: usize, end: usize)
    requires
        forall|t: int| 0 <= t < open.len() ==> (#[trigger] open[t]).2 >= 1,
    ensures
        forall|t: int| 0 <= t < close_all(open, p, end).len() ==> (#[trigger] close_all(open, p, end)[t]).level >= 1,
        forall|t: int| 0 <= t < others_open(open, p).len() ==> (#[trigger] others_open(open, p)[t]).2 >= 1,
    decreases open.len(),
{
    if open.len() > 0 {
        let d = open.drop_last();
        assert forall|t: int| 0 <= t < d.len() implies (#[trigger] d[t]).2 >= 1 by {
            assert(d[t] == open[t]);
        }
        lemma_destroy_levels(d, p, end);
        assert(open[open.len() - 1].2 >= 1);
        let c = close_all(open, p, end);
        if open.last().0 == p {
            assert forall|t: int| 0 <= t < c.len() implies (#[trigger] c[t]).level >= 1 by {
                if t > 0 {
                    assert(c[t] == close_all(d, p, end)[t - 1]);
                }
            }
        } else {
            let o = others_open(open, p);
            assert forall|t: int| 0 <= t < o.len() implies (#[trigger] o[t]).2 >= 1 by {
                if t < o.len() - 1 {
                    assert(o[t] == others_open(d, p)[t]);
                }
            }
        }
    }
}

/// What each step keeps: every activation so far is one bar, open or
/// finished; every bar has level at least 1; no participant has more open
/// bars than there were events.
proof fn lemma_life_run(events: Seq<LifeStep>, k: int)
    requires
        0 <= k <= events.len(),
        events.len() <= usize::MAX,
    ensures
        life_run(events, k).0.len() + life_run(events, k).1.len() == activate_count(events, k),
        levels_positive(life_run(events, k)),
        life_run(events, k).0.len() <= k,
    decreases k,
{
    if k > 0 {
        lemma_life_run(events, k - 1);
        let (open, done) = life_run(events, k - 1);
        let i = (k - 1) as usize;
        match events[k - 1] {
            LifeStep::Activate(p) => {
                let o2 = open.push((p, i, (open_count(open, p) + 1) as usize));
                lemma_open_count_bound(open, p);
                assert forall|t: int| 0 <= t < o2.len() implies (#[trigger] o2[t]).2 >= 1 by {
                    if t < open.len() {
                        assert(o2[t] == open[t]);
                    }
                }
            },
            LifeStep::Deactivate(p) => {
                if last_open(open, p) >= 0 {
                    let j = last_open(open, p);
                    lemma_last_open_range(open, p);
                    let o2 = open.remove(j);
                    let d2 = done.push(closed_bar(open[j], Some(i)));
                    assert forall|t: int| 0 <= t < o2.len() implies (#[trigger] o2[t]).2 >= 1 by {
                        if t < j {
                            assert(o2[t] == open[t]);
                        } else {
                            assert(o2[t] == open[t + 1]);
                        }
                    }
                    assert forall|t: int| 0 <= t < d2.len() implies (#[trigger] d2[t]).level >= 1 by {
                        if t < done.len() {
                            assert(d2[t] == done[t]);
                        }
                    }
                }
            },
            LifeStep::Destroy(p) => {
                lemma_destroy_sizes(open, p, i);
                lemma_destroy_levels(open, p, i);
                let d2 = done + close_all(open, p, i);
                assert forall|t: int| 0 <= t < d2.len() implies (#[trigger] d2[t]).level >= 1 by {
                    if t < done.len() {
                        assert(d2[t] == done[t]);
                    } else {
                        assert(d2[t] == close_all(open, p, i)[t - done.len()]);
                    }
                }
            },
            _ => {},
        }
    }
}

proof fn lemma_last_open_range(open: Seq<OpenBar>, p: usize)
    ensures
        -1 <= last_open(open, p) < open.len(),
        last_open(open, p) >= 0 ==> open[last_open(open, p)].0 == p,
    decreases open.len(),
{
    if open.len() > 0 && open.last().0 != p {
        lemma_last_open_range(open.drop_last(), p);
    }
}

/// Every activation becomes exactly one bar, and every bar has level at
/// least 1.
pub proof fn lemma_one_bar_per_activation(events: Seq<LifeStep>)
    requires
        events.len() <= usize::MAX,
    ensures
        activation_spans(events).len() == activate_count(events, events.len() as int),
        forall|t: int| 0 <= t < activation_spans(events).len() ==> (#[trigger] activation_spans(events)[t]).level >= 1,
{
    lemma_life_run(events, events.len() as int);
    let (open, done) = life_run(events, events.len() as int);
    let all = activation_spans(events);
    assert forall|t: int| 0 <= t < all.len() implies (#[trigger] all[t]).level >= 1 by {
        if t < done.len() {
            assert(all[t] == done[t]);
        } else {
            assert(all[t] == closed_bar(open[t - done.len()], None));
        }
    }
}


/// Each open bar's level is one more than the number of bars of its
/// participant opened before it and still open.
spec fn levels_stacked(open: Seq<OpenBar>) -> bool {
    forall|t: int| 0 <= t < open.len() ==> (#[trigger] open[t]).2 == open_count(open.take(t), open[t].0) + 1
}

/// Each open bar was opened by an activation of its participant before
/// event `k`, and the bars are listed in the order they opened.
spec fn starts_in_order(open: Seq<OpenBar>, events: Seq<LifeStep>, k: int) -> bool {
    &&& forall|t: int|
        0 <= t < open.len() ==> (#[trigger] open[t]).1 < k && events[open[t].1 as int] == LifeStep::Activate(open[t].0)
    &&& forall|t: int, u: int| 0 <= t < u < open.len() ==> (#[trigger] open[t]).1 < (#[trigger] open[u]).1
}

proof fn lemma_count_others(s: Seq<OpenBar>, p: usize, q: usize)
    requires
        q != p,
    ensures
        open_count(others_open(s, p), q) == open_count(s, q),
    decreases s.len(),
{
    if s.len() > 0 {
        lemma_count_others(s.drop_last(), p, q);
        if s.last().0 != p {
            assert(others_open(s, p).drop_last() =~= others_open(s.drop_last(), p));
        }
    }
}

proof fn lemma_count_remove(s: Seq<OpenBar>, j: int, q: usize)
    requires
        0 <= j < s.len(),
        s[j].0 != q,
    ensures
        open_count(s.remove(j), q) == open_count(s, q),
    decreases s.len(),
{
    if j == s.len() - 1 {
        assert(s.remove(j) =~= s.drop_last());
    } else {
        lemma_count_remove(s.drop_last(), j, q);
        assert(s.remove(j).drop_last() =~= s.drop_last().remove(j));
        assert(s.remove(j).last() == s.last());
    }
}

proof fn lemma_count_no_later(s: Seq<OpenBar>, j: int, q: usize)
    requires
        0 <= j <= s.len(),
        forall|t: int| j <= t < s.len() ==> s[t].0 != q,
    ensures
        open_count(s, q) == open_count(s.take(j), q),
    decreases s.len() - j,
{
    if j < s.len() {
        lemma_count_no_later(s.drop_last(), j, q);
        assert(s.drop_last().take(j) =~= s.take(j));
    } else {
        assert(s.take(j) =~= s);
    }
}

proof fn lemma_others_members(s: Seq<OpenBar>, p: usize)
    ensures
        forall|u: int|
            0 <= u < others_open(s, p).len() ==> exists|t: int|
                0 <= t < s.len() && #[trigger] s[t] == #[trigger] others_open(s, p)[u],
        others_open(s, p).len() <= s.len(),
    decreases s.len(),
{
    if s.len() > 0 {
        let d = s.drop_last();
        lemma_others_members(d, p);
        let o = others_open(s, p);
        assert forall|u: int| 0 <= u < o.len() implies exists|t: int|
            0 <= t < s.len() && #[trigger] s[t] == #[trigger] o[u] by {
            if u < others_open(d, p).len() {
                assert(o[u] == others_open(d, p)[u]);
                let t = choose|t: int| 0 <= t < d.len() && #[trigger] d[t] == others_open(d, p)[u];
                assert(s[t] == d[t]);
            } else {
                assert(o[u] == s[s.len() - 1]);
            }
        }
    }
}

proof fn lemma_others_keep(s: Seq<OpenBar>, p: usize, events: Seq<LifeStep>, k: int)
    requires
        levels_stacked(s),
        starts_in_order(s, events, k),
    ensures
        levels_stacked(others_open(s, p)),
        starts_in_order(others_open(s, p), events, k),
        forall|u: int| 0 <= u < others_open(s, p).len() ==> (#[trigger] others_open(s, p)[u]).0 != p,
    decreases s.len(),
{
    if s.len() > 0 {
        let d = s.drop_last();
        assert forall|t: int| 0 <= t < d.len() implies (#[trigger] d[t]).2 == open_count(d.take(t), d[t].0) + 1 by {
            assert(d[t] == s[t]);
            assert(d.take(t) =~= s.take(t));
        }
        assert forall|t: int, u: int| 0 <= t < u < d.len() implies (#[trigger] d[t]).1 < (#[trigger] d[u]).1 by {
            assert(d[t] == s[t] && d[u] == s[u]);
        }
        assert forall|t: int| 0 <= t < d.len() implies (#[trigger] d[t]).1 < k && events[d[t].1 as int]
            == LifeStep::Activate(d[t].0) by {
            assert(d[t] == s[t]);
        }
        lemma_others_keep(d, p, events, k);
        let od = others_open(d, p);
        let last = s[s.len() - 1];
        if last.0 != p {
            let o = od.push(last);
            assert(o == others_open(s, p));
            assert(s.take(s.len() - 1) =~= d);
            lemma_count_others(d, p, last.0);
            assert(o.take(od.len() as int) =~= od);
            assert forall|t: int| 0 <= t < o.len() implies (#[trigger] o[t]).2 == open_count(o.take(t), o[t].0) + 1 by {
                if t < od.len() {
                    assert(o[t] == od[t]);
                    assert(o.take(t) =~= od.take(t));
                }
            }
            lemma_others_members(d, p);
            assert forall|t: int, u: int| 0 <= t < u < o.len() implies (#[trigger] o[t]).1 < (#[trigger] o[u]).1 by {
                assert(o[t] == od[t]);
                if u < od.len() {
                    assert(o[u] == od[u]);
                } else {
                    let w = choose|w: int| 0 <= w < d.len() && #[trigger] d[w] == #[trigger] od[t];
                    assert(s[w] == d[w]);
                    assert(s[w].1 < s[s.len() - 1].1);
                }
            }
            assert forall|t: int| 0 <= t < o.len() implies (#[trigger] o[t]).1 < k && events[o[t].1 as int]
                == LifeStep::Activate(o[t].0) by {
                if t < od.len() {
                    assert(o[t] == od[t]);
                }
            }
            assert forall|u: int| 0 <= u < o.len() implies (#[trigger] o[u]).0 != p by {
                if u < od.len() {
                    assert(o[u] == od[u]);
                }
            }
        }
    }
}

/// The bars still open after the first `k` events keep their levels
/// stacked and their starts in order.
proof fn lemma_life_invariants(events: Seq<LifeStep>, k: int)
    requires
        0 <= k <= events.len(),
        events.len() <= usize::MAX,
    ensures
        levels_stacked(life_run(events, k).0),
        starts_in_order(life_run(events, k).0, events, k),
    decreases k,
{
    if k > 0 {
        lemma_life_invariants(events, k - 1);
        lemma_life_run(events, k - 1);
        let (open, done) = life_run(events, k - 1);
        let i = (k - 1) as usize;
        assert(life_run(events, k) == life_step((open, done), events[k - 1], i));
        match events[k - 1] {
            LifeStep::Activate(p) => {
                lemma_open_count_bound(open, p);
                let o = open.push((p, i, (open_count(open, p) + 1) as usize));
                assert(o.take(open.len() as int) =~= open);
                assert forall|t: int| 0 <= t < o.len() implies (#[trigger] o[t]).2 == open_count(o.take(t), o[t].0) + 1 by {
                    if t < open.len() {
                        assert(o[t] == open[t]);
                        assert(o.take(t) =~= open.take(t));
                    }
                }
                assert forall|t: int, u: int| 0 <= t < u < o.len() implies (#[trigger] o[t]).1 < (#[trigger] o[u]).1 by {
                    assert(o[t] == open[t]);
                    if u < open.len() {
                        assert(o[u] == open[u]);
                    }
                }
                assert forall|t: int| 0 <= t < o.len() implies (#[trigger] o[t]).1 < k && events[o[t].1 as int]
                    == LifeStep::Activate(o[t].0) by {
                    if t < open.len() {
                        assert(o[t] == open[t]);
                    }
                }
            },
            LifeStep::Deactivate(p) => {
                lemma_last_open_range(open, p);
                if last_open(open, p) >= 0 {
                    let j = last_open(open, p);
                    lemma_last_open_after(open, p);
                    let o = open.remove(j);
                    assert forall|t: int| 0 <= t < o.len() implies (#[trigger] o[t]).2 == open_count(o.take(t), o[t].0) + 1 by {
                        if t < j {
                            assert(o[t] == open[t]);
                            assert(o.take(t) =~= open.take(t));
                        } else {
                            assert(o[t] == open[t + 1]);
                            assert(o.take(t) =~= open.take(t + 1).remove(j));
                            assert(open.take(t + 1)[j] == open[j]);
                            lemma_count_remove(open.take(t + 1), j, open[t + 1].0);
                        }
                    }
                    assert forall|t: int, u: int| 0 <= t < u < o.len() implies (#[trigger] o[t]).1 < (#[trigger] o[u]).1 by {
                        let tt = if t < j { t } else { t + 1 };
                        let uu = if u < j { u } else { u + 1 };
                        assert(o[t] == open[tt]);
                        assert(o[u] == open[uu]);
                    }
                    assert forall|t: int| 0 <= t < o.len() implies (#[trigger] o[t]).1 < k && events[o[t].1 as int]
                        == LifeStep::Activate(o[t].0) by {
                        if t < j {
                            assert(o[t] == open[t]);
                        } else {
                            assert(o[t] == open[t + 1]);
                        }
                    }
                }
            },
            LifeStep::Destroy(p) => {
                lemma_others_keep(open, p, events, k - 1);
                let o = others_open(open, p);
                assert forall|t: int| 0 <= t < o.len() implies (#[trigger] o[t]).1 < k && events[o[t].1 as int]
                    == LifeStep::Activate(o[t].0) by {}
            },
            _ => {},
        }
    }
}

proof fn lemma_last_open_after(open: Seq<OpenBar>, p: usize)
    ensures
        forall|t: int| last_open(open, p) < t < open.len() ==> open[t].0 != p,
    decreases open.len(),
{
    lemma_last_open_range(open, p);
    if open.len() > 0 && open.last().0 != p {
        lemma_last_open_after(open.drop_last(), p);
        assert forall|t: int| last_open(open, p) < t < open.len() implies open[t].0 != p by {
            if t < open.len() - 1 {
                assert(open[t] == open.drop_last()[t]);
            }
        }
    }
}

/// A deactivation closes the participant's most recent open bar: the bar
/// it finishes is the participant's, ends at the deactivation, was opened
/// by an earlier activation of that participant after every bar of it that
/// stays open, and has the highest level among its open bars (their
/// number). With no bar of that participant open, nothing changes.
pub proof fn lemma_deactivate_closes_latest(events: Seq<LifeStep>, k: int, p: usize)
    requires
        events.len() <= usize::MAX,
        0 <= k < events.len(),
        events[k] == LifeStep::Deactivate(p),
    ensures
        (exists|t: int| 0 <= t < life_run(events, k).0.len() && (#[trigger] life_run(events, k).0[t]).0 == p) ==> {
            let before = life_run(events, k);
            let after = life_run(events, k + 1);
            let b = after.1.last();
            &&& after.1 == before.1.push(b)
            &&& b.participant == p
            &&& b.end == Some(k as usize)
            &&& b.start < k
            &&& events[b.start as int] == LifeStep::Activate(p)
            &&& b.level == open_count(before.0, p)
            &&& forall|t: int| 0 <= t < after.0.len() && (#[trigger] after.0[t]).0 == p ==> after.0[t].1 < b.start
        },
        !(exists|t: int| 0 <= t < life_run(events, k).0.len() && (#[trigger] life_run(events, k).0[t]).0 == p) ==> life_run(
            events,
            k + 1,
        ) == life_run(events, k),
{
    lemma_life_invariants(events, k);
    let (open, done) = life_run(events, k);
    assert(life_run(events, k + 1) == life_step((open, done), events[k], k as usize));
    lemma_last_open_range(open, p);
    lemma_last_open_after(open, p);
    if exists|t: int| 0 <= t < open.len() && (#[trigger] open[t]).0 == p {
        let t0 = choose|t: int| 0 <= t < open.len() && (#[trigger] open[t]).0 == p;
        assert(last_open(open, p) >= 0);
        let j = last_open(open, p);
        let b = closed_bar(open[j], Some(k as usize));
        assert(life_run(events, k + 1).1 == done.push(b));
        lemma_count_no_later(open, j + 1, p);
        assert(open.take(j + 1) =~= open.take(j).push(open[j]));
        assert(open.take(j + 1).drop_last() =~= open.take(j));
        let o = open.remove(j);
        assert forall|t: int| 0 <= t < o.len() && (#[trigger] o[t]).0 == p implies o[t].1 < b.start by {
            if t < j {
                assert(o[t] == open[t]);
            } else {
                assert(o[t] == open[t + 1]);
            }
        }
    } else {
        if last_open(open, p) >= 0 {
            assert(open[last_open(open, p)].0 == p);
        }
    }
}

fn count_open(open: &Vec<OpenBar>, p: usize) -> (res: usize)
    ensures
        res == open_count(open@, p),
{
    let mut c: usize = 0;
    for j in 0..open.len()
        invariant
            c == open_count(open@.take(j as int), p),
            c <= j,
    {
        assert(open@.take(j + 1).drop_last() =~= open@.take(j as int));
        if open[j].0 == p {
            c = c + 1;
        }
    }
    assert(open@.take(open.len() as int) =~= open@);
    c
}

fn last_open_index(open: &Vec<OpenBar>, p: usize) -> (res: Option<usize>)
    ensures
        match res {
            Some(j) => last_open(open@, p) == j as int && j < open.len(),
            None => last_open(open@, p) == -1,
        },
{
    let mut j: usize = open.len();
    while j > 0
        invariant
            j <= open.len(),
            forall|t: int| j <= t < open.len() ==> open@[t].0 != p,
        decreases j,
    {
        if open[j - 1].0 == p {
            proof {
                lemma_last_open(open@, p, j - 1);
            }
            return Some(j - 1);
        }
        j = j - 1;
    }
    proof {
        lemma_last_open(open@, p, -1);
    }
    None
}

fn close_all_exec(open: &Vec<OpenBar>, p: usize, end: usize) -> (res: Vec<ActivationSpan>)
    ensures
        res@ == close_all(open@, p, end),
{
    let mut res: Vec<ActivationSpan> = Vec::new();
    let mut j: usize = open.len();
    assert(open@.take(open.len() as int) =~= open@);
    while j > 0
        invariant
            j <= open.len(),
            res@ + close_all(open@.take(j as int), p, end) == close_all(open@, p, end),
        decreases j,
    {
        let ghost t = open@.take(j as int);
        assert(t.drop_last() =~= open@.take(j - 1));
        assert(t.last() == open@[j - 1]);
        let b = open[j - 1];
        if b.0 == p {
            let ghost before = res@;
            res.push(ActivationSpan { participant: b.0, start: b.1, end: Some(end), level: b.2 });
            assert(res@ + close_all(open@.take(j - 1), p, end) =~= before + close_all(t, p, end));
        }
        j = j - 1;
    }
    assert(res@ + Seq::<ActivationSpan>::empty() =~= res@);
    res
}

fn others_exec(open: &Vec<OpenBar>, p: usize) -> (res: Vec<OpenBar>)
    ensures
        res@ == others_open(open@, p),
{
    let mut kept: Vec<OpenBar> = Vec::new();
    for j in 0..open.len()
        invariant
            kept@ == others_open(open@.take(j as int), p),
    {
        assert(open@.take(j + 1).drop_last() =~= open@.take(j as int));
        if open[j].0 != p {
            kept.push(open[j]);
        }
    }
    assert(open@.take(open.len() as int) =~= open@);
    kept
}

/// Pairs the activations and deactivations of a diagram into activation
/// bars: the bars that events close, in the order they close, then those
/// left open, in the order they opened.
pub fn pair_activations(events: &[LifeStep]) -> (res: Vec<ActivationSpan>)
    ensures
        res@ == activation_spans(events@),
{
    let mut open: Vec<OpenBar> = Vec::new();
    let mut done: Vec<ActivationSpan> = Vec::new();
    for i in 0..events.len()
        invariant
            (open@, done@) == life_run(events@, i as int),
    {
        proof {
            lemma_life_run(events@, i as int);
            lemma_open_count_bound(open@, 0);
        }
        assert(life_run(events@, i + 1) == life_step(life_run(events@, i as int), events@[i as int], i));
        match events[i] {
            LifeStep::Activate(p) => {
                let c = count_open(&open, p);
                proof {
                    lemma_open_count_bound(open@, p);
                }
                open.push((p, i, c + 1));
            },
            LifeStep::Deactivate(p) => {
                match last_open_index(&open, p) {
                    Some(j) => {
                        let b = open.remove(j);
                        done.push(ActivationSpan { participant: b.0, start: b.1, end: Some(i), level: b.2 });
                    },
                    None => {},
                }
            },
            LifeStep::Destroy(p) => {
                let mut closed = close_all_exec(&open, p, i);
                let kept = others_exec(&open, p);
                open = kept;
                done.append(&mut closed);
            },
            _ => {},
        }
    }
    let ghost done_all = done@;
    for j in 0..open.len()
        invariant
            done@ == done_all + open@.take(j as int).map_values(|b: OpenBar| closed_bar(b, None)),
    {
        let b = open[j];
        done.push(ActivationSpan { participant: b.0, start: b.1, end: None, level: b.2 });
        assert(open@.take(j + 1).map_values(|b: OpenBar| closed_bar(b, None)) =~= open@.take(j as int).map_values(
            |b: OpenBar| closed_bar(b, None),
        ).push(closed_bar(b, None)));
    }
    assert(open@.take(open.len() as int) =~= open@);
    done
}

} // verus!
