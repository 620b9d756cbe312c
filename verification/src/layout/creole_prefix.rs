//! Creole markup that stays open at the end of a line: what a wrapped
//! note line hands on to the line after it.
use vstd::prelude::*;

use crate::text::{append_chars, chars_of, find, find_chars, lemma_find_from, matches_at, slice_chars, string_of};

verus! {

/// Kind of a creole formatting tag.
#[derive(Debug, Clone, Copy, PartialEq, Eq, Structural)]
pub enum TagKind {
    Bold,
    Italic,
    Underline,
    Strike,
    Back,
    Font,
    Color,
    Size,
}

/// Code of `c` with ASCII capitals made small.
pub open spec fn ascii_lower(c: char) -> u32 {
    let u = c as u32;
    if 65 <= u <= 90 {
        (u + 32) as u32
    } else {
        u
    }
}

/// `rest` begins with `needle`, ignoring ASCII case.
pub open spec fn starts_ci(rest: Seq<char>, needle: Seq<char>) -> bool {
    rest.len() >= needle.len() && forall|k: int|
        0 <= k < needle.len() ==> ascii_lower(#[trigger] rest[k]) == ascii_lower(needle[k])
}

/// Opening tag of the `k`-th plain tag (`<b>`, `<i>`, `<u>`, `<s>`).
pub open spec fn plain_open(k: int) -> Seq<char> {
    if k == 0 {
        "<b>"@
    } else if k == 1 {
        "<i>"@
    } else if k == 2 {
        "<u>"@
    } else {
        "<s>"@
    }
}

/// Closing tag of the `k`-th plain tag.
pub open spec fn plain_close(k: int) -> Seq<char> {
    if k == 0 {
        "</b>"@
    } else if k == 1 {
        "</i>"@
    } else if k == 2 {
        "</u>"@
    } else {
        "</s>"@
    }
}

/// Kind of the `k`-th plain tag.
pub open spec fn plain_kind(k: int) -> TagKind {
    if k == 0 {
        TagKind::Bold
    } else if k == 1 {
        TagKind::Italic
    } else if k == 2 {
        TagKind::Underline
    } else {
        TagKind::Strike
    }
}

/// Start of the `k`-th tag with an argument (`<back:`, `<font:`,
/// `<color:`, `<size:`).
pub open spec fn styled_open(k: int) -> Seq<char> {
    if k == 0 {
        "<back:"@
    } else if k == 1 {
        "<font:"@
    } else if k == 2 {
        "<color:"@
    } else {
        "<size:"@
    }
}

/// Closing tag of the `k`-th tag with an argument.
pub open spec fn styled_close(k: int) -> Seq<char> {
    if k == 0 {
        "</back>"@
    } else if k == 1 {
        "</font>"@
    } else if k == 2 {
        "</color>"@
    } else {
        "</size>"@
    }
}

/// Kind of the `k`-th tag with an argument.
pub open spec fn styled_kind(k: int) -> TagKind {
    if k == 0 {
        TagKind::Back
    } else if k == 1 {
        TagKind::Font
    } else if k == 2 {
        TagKind::Color
    } else {
        TagKind::Size
    }
}

/// Open tags: each with its kind and the text that opened it.
pub type TagStack = Seq<(TagKind, Seq<char>)>;

/// `st` without its most recent entry of `kind` (unchanged when there is
/// none).
pub open spec fn remove_last_kind(st: TagStack, kind: TagKind) -> TagStack
    decreases st.len(),
{
    if st.len() == 0 {
        st
    } else if st.last().0 == kind {
        st.drop_last()
    } else {
        remove_last_kind(st.drop_last(), kind).push(st.last())
    }
}

/// Effect of a plain tag at the start of `rest`, trying tags from the
/// `k`-th on, opening before closing: the new stack and the length read.
pub open spec fn plain_step(rest: Seq<char>, st: TagStack, k: int) -> Option<(TagStack, int)>
    decreases 4 - k,
{
    if k < 0 || k >= 4 {
        None
    } else if starts_ci(rest, plain_open(k)) {
        Some((st.push((plain_kind(k), plain_open(k))), plain_open(k).len() as int))
    } else if starts_ci(rest, plain_close(k)) {
        Some((remove_last_kind(st, plain_kind(k)), plain_close(k).len() as int))
    } else {
        plain_step(rest, st, k + 1)
    }
}

/// Effect of a tag with an argument at the start of `rest`: an opening
/// tag counts up to the first `>`, and is kept as written.
pub open spec fn styled_step(rest: Seq<char>, st: TagStack, k: int) -> Option<(TagStack, int)>
    decreases 4 - k,
{
    if k < 0 || k >= 4 {
        None
    } else if starts_ci(rest, styled_open(k)) && find(rest, ">"@) is Some {
        let e = find(rest, ">"@)->0;
        Some((st.push((styled_kind(k), rest.take(e + 1))), e + 1))
    } else if starts_ci(rest, styled_close(k)) {
        Some((remove_last_kind(st, styled_kind(k)), styled_close(k).len() as int))
    } else {
        styled_step(rest, st, k + 1)
    }
}

/// Tags still open after reading `s` from position `i` with `st` open.
pub open spec fn scan_tags(s: Seq<char>, i: int, st: TagStack) -> TagStack
    decreases s.len() - i,
{
    if i < 0 || i >= s.len() {
        st
    } else {
        let rest = s.skip(i);
        match plain_step(rest, st, 0) {
            Some((st2, n)) => if 0 < n && i + n <= s.len() {
                scan_tags(s, i + n, st2)
            } else {
                st2
            },
            None => match styled_step(rest, st, 0) {
                Some((st2, n)) => if 0 < n && i + n <= s.len() {
                    scan_tags(s, i + n, st2)
                } else {
                    st2
                },
                None => scan_tags(s, i + 1, st),
            },
        }
    }
}

/// The opening texts of a stack, oldest first.
pub open spec fn opening_texts(st: TagStack) -> Seq<char>
    decreases st.len(),
{
    if st.len() == 0 {
        Seq::empty()
    } else {
        opening_texts(st.drop_last()) + st.last().1
    }
}

/// The markup that is still open at the end of `line`.
pub open spec fn unclosed_prefix(line: Seq<char>) -> Seq<char> {
    opening_texts(scan_tags(line, 0, Seq::empty()))
}

/// The abstract stack of an executable one.
pub open spec fn stack_view(s: Seq<(TagKind, Vec<char>)>) -> TagStack {
    s.map_values(|e: (TagKind, Vec<char>)| (e.0, e.1@))
}

proof fn lemma_remove_last_kind(st: TagStack, kind: TagKind, p: int)
    requires
        0 <= p < st.len(),
        st[p].0 == kind,
        forall|t: int| p < t < st.len() ==> st[t].0 != kind,
    ensures
        remove_last_kind(st, kind) == st.remove(p),
    decreases st.len(),
{
    if p == st.len() - 1 {
        assert(st.drop_last() =~= st.remove(p));
    } else {
        lemma_remove_last_kind(st.drop_last(), kind, p);
        assert(st.drop_last().remove(p).push(st.last()) =~= st.remove(p));
    }
}

proof fn lemma_remove_absent_kind(st: TagStack, kind: TagKind)
    requires
        forall|t: int| 0 <= t < st.len() ==> st[t].0 != kind,
    ensures
        remove_last_kind(st, kind) == st,
    decreases st.len(),
{
    if st.len() > 0 {
        lemma_remove_absent_kind(st.drop_last(), kind);
        assert(st.drop_last().push(st.last()) =~= st);
    }
}

fn remove_last_of_kind(stack: &mut Vec<(TagKind, Vec<char>)>, kind: TagKind)
    ensures
        stack_view(final(stack)@) == remove_last_kind(stack_view(old(stack)@), kind),
{
    let mut j = stack.len();
    while j > 0
        invariant
            j <= stack.len(),
            stack@ == old(stack)@,
            forall|t: int| j <= t < stack.len() ==> stack@[t].0 != kind,
        decreases j,
    {
        if stack[j - 1].0 == kind {
            proof {
                lemma_remove_last_kind(stack_view(stack@), kind, j - 1);
            }
            let ghost before = stack@;
            stack.remove(j - 1);
            assert(stack_view(stack@) =~= stack_view(before).remove(j - 1));
            return;
        }
        j = j - 1;
    }
    proof {
        lemma_remove_absent_kind(stack_view(stack@), kind);
    }
}

fn ascii_lower_exec(c: char) -> (res: u32)
    ensures
        res == ascii_lower(c),
{
    let u = c as u32;
    if 65 <= u && u <= 90 {
        u + 32
    } else {
        u
    }
}

fn starts_ci_at(v: &Vec<char>, i: usize, needle: &Vec<char>) -> (res: bool)
    requires
        i <= v.len(),
    ensures
        res == starts_ci(v@.skip(i as int), needle@),
{
    if needle.len() > v.len() - i {
        return false;
    }
    let mut k: usize = 0;
    while k < needle.len()
        invariant
            i + needle.len() <= v.len(),
            k <= needle.len(),
            forall|j: int| 0 <= j < k ==> ascii_lower(#[trigger] v@.skip(i as int)[j]) == ascii_lower(needle@[j]),
        decreases needle.len() - k,
    {
        assert(v@.skip(i as int)[k as int] == v@[i + k]);
        if ascii_lower_exec(v[i + k]) != ascii_lower_exec(needle[k]) {
            return false;
        }
        k = k + 1;
    }
    true
}

fn plain_tag(k: usize) -> (res: (Vec<char>, Vec<char>, TagKind))
    requires
        k < 4,
    ensures
        res.0@ == plain_open(k as int),
        res.1@ == plain_close(k as int),
        res.2 == plain_kind(k as int),
        res.0@.len() > 0,
        res.1@.len() > 0,
{
    proof {
        reveal_strlit("<b>");
        reveal_strlit("<i>");
        reveal_strlit("<u>");
        reveal_strlit("<s>");
        reveal_strlit("</b>");
        reveal_strlit("</i>");
        reveal_strlit("</u>");
        reveal_strlit("</s>");
    }
    if k == 0 {
        (chars_of("<b>"), chars_of("</b>"), TagKind::Bold)
    } else if k == 1 {
        (chars_of("<i>"), chars_of("</i>"), TagKind::Italic)
    } else if k == 2 {
        (chars_of("<u>"), chars_of("</u>"), TagKind::Underline)
    } else {
        (chars_of("<s>"), chars_of("</s>"), TagKind::Strike)
    }
}

fn styled_tag(k: usize) -> (res: (Vec<char>, Vec<char>, TagKind))
    requires
        k < 4,
    ensures
        res.0@ == styled_open(k as int),
        res.1@ == styled_close(k as int),
        res.2 == styled_kind(k as int),
        res.1@.len() > 0,
{
    proof {
        reveal_strlit("</back>");
        reveal_strlit("</font>");
        reveal_strlit("</color>");
        reveal_strlit("</size>");
    }
    if k == 0 {
        (chars_of("<back:"), chars_of("</back>"), TagKind::Back)
    } else if k == 1 {
        (chars_of("<font:"), chars_of("</font>"), TagKind::Font)
    } else if k == 2 {
        (chars_of("<color:"), chars_of("</color>"), TagKind::Color)
    } else {
        (chars_of("<size:"), chars_of("</size>"), TagKind::Size)
    }
}

/// Applies a plain tag at position `i`; the length read, 0 when none.
fn try_plain(v: &Vec<char>, i: usize, stack: &mut Vec<(TagKind, Vec<char>)>) -> (n: usize)
    requires
        i < v.len(),
    ensures
        match plain_step(v@.skip(i as int), stack_view(old(stack)@), 0) {
            Some((st, m)) => n == m && n > 0 && i + n <= v.len() && stack_view(final(stack)@) == st,
            None => n == 0 && final(stack)@ == old(stack)@,
        },
{
    let ghost rest = v@.skip(i as int);
    let ghost st0 = stack_view(stack@);
    for k in 0..4
        invariant
            i < v.len(),
            rest == v@.skip(i as int),
            stack_view(stack@) == st0,
            stack@ == old(stack)@,
            plain_step(rest, st0, 0) == plain_step(rest, st0, k as int),
    {
        let (open, close, kind) = plain_tag(k);
        if starts_ci_at(v, i, &open) {
            let len = open.len();
            stack.push((kind, open));
            assert(stack_view(stack@) =~= st0.push((plain_kind(k as int), plain_open(k as int))));
            return len;
        }
        if starts_ci_at(v, i, &close) {
            remove_last_of_kind(stack, kind);
            return close.len();
        }
    }
    0
}

/// Applies a tag with an argument at position `i`; the length read, 0
/// when none.
fn try_styled(v: &Vec<char>, i: usize, stack: &mut Vec<(TagKind, Vec<char>)>) -> (n: usize)
    requires
        i < v.len(),
    ensures
        match styled_step(v@.skip(i as int), stack_view(old(stack)@), 0) {
            Some((st, m)) => n == m && n > 0 && i + n <= v.len() && stack_view(final(stack)@) == st,
            None => n == 0 && final(stack)@ == old(stack)@,
        },
{
    let ghost rest = v@.skip(i as int);
    let ghost st0 = stack_view(stack@);
    proof {
        reveal_strlit(">");
    }
    let gt = chars_of(">");
    for k in 0..4
        invariant
            i < v.len(),
            rest == v@.skip(i as int),
            gt@ == ">"@,
            gt.len() == 1,
            stack_view(stack@) == st0,
            stack@ == old(stack)@,
            styled_step(rest, st0, 0) == styled_step(rest, st0, k as int),
    {
        let (open, close, kind) = styled_tag(k);
        if starts_ci_at(v, i, &open) {
            let tail = slice_chars(v, i, v.len());
            assert(tail@ == rest);
            match find_chars(&tail, &gt) {
                Some(e) => {
                    proof {
                        lemma_find_from(rest, gt@, 0);
                        assert(matches_at(rest, e as int, gt@));
                        assert(e + gt.len() <= tail.len());
                    }
                    let text = slice_chars(&tail, 0, e + 1);
                    assert(text@ == rest.take(e + 1));
                    stack.push((kind, text));
                    assert(stack_view(stack@) =~= st0.push((styled_kind(k as int), rest.take(e + 1))));
                    return e + 1;
                },
                None => {},
            }
        }
        if starts_ci_at(v, i, &close) {
            remove_last_of_kind(stack, kind);
            return close.len();
        }
    }
    0
}

/// Collects the creole tags left open at the end of `line`, so that a
/// wrapped continuation line can reopen them.
pub fn collect_unclosed_creole_prefix(line: &str) -> (res: String)
    ensures
        res@ == unclosed_prefix(line@),
{
    let v = chars_of(line);
    let mut stack: Vec<(TagKind, Vec<char>)> = Vec::new();
    let mut i: usize = 0;
    assert(stack_view(stack@) =~= Seq::<(TagKind, Seq<char>)>::empty());
    while i < v.len()
        invariant
            i <= v.len(),
            scan_tags(v@, 0, Seq::empty()) == scan_tags(v@, i as int, stack_view(stack@)),
        decreases v.len() - i,
    {
        let n = try_plain(&v, i, &mut stack);
        if n > 0 {
            i = i + n;
        } else {
            let n2 = try_styled(&v, i, &mut stack);
            if n2 > 0 {
                i = i + n2;
            } else {
                i = i + 1;
            }
        }
    }
    let mut out: Vec<char> = Vec::new();
    for j in 0..stack.len()
        invariant
            out@ == opening_texts(stack_view(stack@).take(j as int)),
    {
        assert(stack_view(stack@).take(j + 1).drop_last() =~= stack_view(stack@).take(j as int));
        append_chars(&mut out, &stack[j].1);
    }
    assert(stack_view(stack@).take(stack.len() as int) =~= stack_view(stack@));
    string_of(&out)
}

proof fn lemma_no_tag_without_lt(rest: Seq<char>, st: TagStack, k: int)
    requires
        rest.len() > 0,
        rest[0] != '<',
        0 <= k <= 4,
    ensures
        plain_step(rest, st, k) is None,
        styled_step(rest, st, k) is None,
    decreases 4 - k,
{
    reveal_strlit("<b>");
    reveal_strlit("<i>");
    reveal_strlit("<u>");
    reveal_strlit("<s>");
    reveal_strlit("</b>");
    reveal_strlit("</i>");
    reveal_strlit("</u>");
    reveal_strlit("</s>");
    reveal_strlit("<back:");
    reveal_strlit("<font:");
    reveal_strlit("<color:");
    reveal_strlit("<size:");
    reveal_strlit("</back>");
    reveal_strlit("</font>");
    reveal_strlit("</color>");
    reveal_strlit("</size>");
    if k < 4 {
        vstd::utf8::char_u32_cast(rest[0], rest[0] as u32);
        vstd::utf8::char_u32_cast('<', '<' as u32);
        assert(rest[0] as u32 != '<' as u32);
        assert(ascii_lower(rest[0]) != ascii_lower('<'));
        assert(!starts_ci(rest, plain_open(k)));
        assert(!starts_ci(rest, plain_close(k)));
        assert(!starts_ci(rest, styled_open(k)));
        assert(!starts_ci(rest, styled_close(k)));
        lemma_no_tag_without_lt(rest, st, k + 1);
    }
}

proof fn lemma_scan_without_lt(s: Seq<char>, i: int, st: TagStack)
    requires
        !s.contains('<'),
        0 <= i,
    ensures
        scan_tags(s, i, st) == st,
    decreases s.len() - i,
{
    if i < s.len() {
        assert(s.skip(i)[0] == s[i]);
        lemma_no_tag_without_lt(s.skip(i), st, 0);
        lemma_scan_without_lt(s, i + 1, st);
    }
}

/// A line without `<` holds no markup, so it leaves nothing open.
pub proof fn lemma_plain_line_leaves_nothing_open(line: Seq<char>)
    requires
        !line.contains('<'),
    ensures
        unclosed_prefix(line) == Seq::<char>::empty(),
{
    lemma_scan_without_lt(line, 0, Seq::empty());
}


proof fn lemma_tag_texts()
    ensures
        plain_open(0) == seq!['<', 'b', '>'],
        plain_open(1) == seq!['<', 'i', '>'],
        plain_open(2) == seq!['<', 'u', '>'],
        plain_open(3) == seq!['<', 's', '>'],
        plain_close(0) == seq!['<', '/', 'b', '>'],
        plain_close(1) == seq!['<', '/', 'i', '>'],
        plain_close(2) == seq!['<', '/', 'u', '>'],
        plain_close(3) == seq!['<', '/', 's', '>'],
        styled_open(0) == seq!['<', 'b', 'a', 'c', 'k', ':'],
        styled_open(1) == seq!['<', 'f', 'o', 'n', 't', ':'],
        styled_open(2) == seq!['<', 'c', 'o', 'l', 'o', 'r', ':'],
        styled_open(3) == seq!['<', 's', 'i', 'z', 'e', ':'],
        styled_close(0) == seq!['<', '/', 'b', 'a', 'c', 'k', '>'],
        styled_close(1) == seq!['<', '/', 'f', 'o', 'n', 't', '>'],
        styled_close(2) == seq!['<', '/', 'c', 'o', 'l', 'o', 'r', '>'],
        styled_close(3) == seq!['<', '/', 's', 'i', 'z', 'e', '>'],
        ">"@ == seq!['>'],
{
    reveal_strlit("<b>");
    reveal_strlit("<i>");
    reveal_strlit("<u>");
    reveal_strlit("<s>");
    reveal_strlit("</b>");
    reveal_strlit("</i>");
    reveal_strlit("</u>");
    reveal_strlit("</s>");
    reveal_strlit("<back:");
    reveal_strlit("<font:");
    reveal_strlit("<color:");
    reveal_strlit("<size:");
    reveal_strlit("</back>");
    reveal_strlit("</font>");
    reveal_strlit("</color>");
    reveal_strlit("</size>");
    reveal_strlit(">");
    assert(plain_open(0) =~= seq!['<', 'b', '>']);
    assert(plain_open(1) =~= seq!['<', 'i', '>']);
    assert(plain_open(2) =~= seq!['<', 'u', '>']);
    assert(plain_open(3) =~= seq!['<', 's', '>']);
    assert(plain_close(0) =~= seq!['<', '/', 'b', '>']);
    assert(plain_close(1) =~= seq!['<', '/', 'i', '>']);
    assert(plain_close(2) =~= seq!['<', '/', 'u', '>']);
    assert(plain_close(3) =~= seq!['<', '/', 's', '>']);
    assert(styled_open(0) =~= seq!['<', 'b', 'a', 'c', 'k', ':']);
    assert(styled_open(1) =~= seq!['<', 'f', 'o', 'n', 't', ':']);
    assert(styled_open(2) =~= seq!['<', 'c', 'o', 'l', 'o', 'r', ':']);
    assert(styled_open(3) =~= seq!['<', 's', 'i', 'z', 'e', ':']);
    assert(styled_close(0) =~= seq!['<', '/', 'b', 'a', 'c', 'k', '>']);
    assert(styled_close(1) =~= seq!['<', '/', 'f', 'o', 'n', 't', '>']);
    assert(styled_close(2) =~= seq!['<', '/', 'c', 'o', 'l', 'o', 'r', '>']);
    assert(styled_close(3) =~= seq!['<', '/', 's', 'i', 'z', 'e', '>']);
    assert(">"@ =~= seq!['>']);
}

/// Position of a tag kind among the plain tags or among the tags with an
/// argument.
spec fn tag_index(kind: TagKind) -> int {
    match kind {
        TagKind::Bold | TagKind::Back => 0,
        TagKind::Italic | TagKind::Font => 1,
        TagKind::Underline | TagKind::Color => 2,
        TagKind::Strike | TagKind::Size => 3,
    }
}

spec fn is_plain_kind(kind: TagKind) -> bool {
    kind is Bold || kind is Italic || kind is Underline || kind is Strike
}

/// `t` is a tag with an argument as the scan records it: it starts with
/// the `k`-th opening and runs up to its first `>`.
spec fn styled_text(t: Seq<char>, k: int) -> bool {
    starts_ci(t, styled_open(k)) && find(t, ">"@) == Some(t.len() - 1)
}

/// An open tag as the scan records it.
spec fn recorded_tag(e: (TagKind, Seq<char>)) -> bool {
    if is_plain_kind(e.0) {
        e.1 == plain_open(tag_index(e.0))
    } else {
        styled_text(e.1, tag_index(e.0))
    }
}

spec fn all_recorded(st: TagStack) -> bool {
    forall|t: int| 0 <= t < st.len() ==> recorded_tag(#[trigger] st[t])
}

proof fn lemma_lower_gt(c: char)
    ensures
        ascii_lower(c) == 62 ==> c == '>',
{
    if ascii_lower(c) == 62 {
        vstd::utf8::char_u32_cast(c, c as u32);
        vstd::utf8::char_u32_cast('>', '>' as u32);
    }
}

/// The first occurrence found from `i`, given that it occurs at `x` and
/// nowhere between.
proof fn lemma_find_exact(s: Seq<char>, p: Seq<char>, i: int, x: int)
    requires
        0 <= i <= x,
        matches_at(s, x, p),
        forall|j: int| i <= j < x ==> !matches_at(s, j, p),
    ensures
        crate::text::find_from(s, p, i) == Some(x),
    decreases x - i,
{
    if i < x {
        lemma_find_exact(s, p, i + 1, x);
    }
}

/// A first occurrence stays first when text is appended.
proof fn lemma_find_prefix(t: Seq<char>, more: Seq<char>, p: Seq<char>)
    requires
        find(t, p) is Some,
    ensures
        find(t + more, p) == find(t, p),
{
    lemma_find_from(t, p, 0);
    let x = find(t, p)->0;
    let u = t + more;
    assert(u.subrange(x, x + p.len()) =~= t.subrange(x, x + p.len()));
    assert forall|j: int| 0 <= j < x implies !matches_at(u, j, p) by {
        assert(!matches_at(t, j, p));
        assert(u.subrange(j, j + p.len()) =~= t.subrange(j, j + p.len()));
    }
    lemma_find_exact(u, p, 0, x);
}

proof fn lemma_opening_texts_front(st: TagStack)
    requires
        st.len() >= 1,
    ensures
        opening_texts(st) == st[0].1 + opening_texts(st.drop_first()),
    decreases st.len(),
{
    if st.len() == 1 {
        assert(st.drop_first().len() == 0);
        assert(opening_texts(st.drop_last()) == Seq::<char>::empty());
        assert(st[0].1 + Seq::<char>::empty() =~= st[0].1);
    } else {
        lemma_opening_texts_front(st.drop_last());
        assert(st.drop_last().drop_first() =~= st.drop_first().drop_last());
        assert(st.drop_first().last() == st.last());
        assert(st.drop_last()[0] == st[0]);
        assert(st[0].1 + opening_texts(st.drop_last().drop_first()) + st.last().1 =~= st[0].1
            + (opening_texts(st.drop_first().drop_last()) + st.drop_first().last().1));
    }
}

/// Text that starts with the `k`-th plain opening is read as that tag.
proof fn lemma_plain_reads(rest: Seq<char>, acc: TagStack, j: int, k: int)
    requires
        0 <= j <= k < 4,
        rest.len() >= 3,
        rest.take(3) == plain_open(k),
    ensures
        plain_step(rest, acc, j) == Some((acc.push((plain_kind(k), plain_open(k))), 3int)),
    decreases k - j,
{
    lemma_tag_texts();
    assert(rest[0] == rest.take(3)[0] && rest[1] == rest.take(3)[1] && rest[2] == rest.take(3)[2]);
    if j == k {
        assert(starts_ci(rest, plain_open(k)));
    } else {
        assert(ascii_lower(rest[1]) != ascii_lower(plain_open(j)[1]));
        assert(!starts_ci(rest, plain_open(j)));
        assert(ascii_lower(rest[1]) != ascii_lower(plain_close(j)[1]));
        assert(!starts_ci(rest, plain_close(j)));
        lemma_plain_reads(rest, acc, j + 1, k);
    }
}

/// Text that starts with an opening with an argument is no plain tag.
proof fn lemma_plain_skips_styled(rest: Seq<char>, acc: TagStack, j: int, k: int)
    requires
        0 <= j <= 4,
        0 <= k < 4,
        starts_ci(rest, styled_open(k)),
    ensures
        plain_step(rest, acc, j) is None,
    decreases 4 - j,
{
    lemma_tag_texts();
    if j < 4 {
        assert(ascii_lower(rest[2]) == ascii_lower(styled_open(k)[2]));
        assert(ascii_lower(rest[2]) != ascii_lower(plain_open(j)[2]));
        assert(!starts_ci(rest, plain_open(j)));
        assert(ascii_lower(rest[1]) == ascii_lower(styled_open(k)[1]));
        assert(ascii_lower(rest[1]) != ascii_lower(plain_close(j)[1]));
        assert(!starts_ci(rest, plain_close(j)));
        lemma_plain_skips_styled(rest, acc, j + 1, k);
    }
}

/// Text that starts with a recorded tag with an argument is read as that
/// tag, as written.
proof fn lemma_styled_reads(rest: Seq<char>, acc: TagStack, t: Seq<char>, j: int, k: int)
    requires
        0 <= j <= k < 4,
        styled_text(t, k),
        rest.len() >= t.len(),
        rest.take(t.len() as int) == t,
    ensures
        styled_step(rest, acc, j) == Some((acc.push((styled_kind(k), t)), t.len() as int)),
    decreases k - j,
{
    lemma_tag_texts();
    assert(t + rest.skip(t.len() as int) =~= rest);
    lemma_find_prefix(t, rest.skip(t.len() as int), ">"@);
    assert forall|m: int| 0 <= m < t.len() implies rest[m] == t[m] by {
        assert(rest.take(t.len() as int)[m] == rest[m]);
    }
    assert(ascii_lower(rest[1]) == ascii_lower(styled_open(k)[1]));
    if j == k {
        assert(starts_ci(rest, styled_open(k)));
        assert(rest.take(t.len() - 1 + 1) == t);
    } else {
        assert(ascii_lower(rest[1]) != ascii_lower(styled_open(j)[1]));
        assert(!starts_ci(rest, styled_open(j)));
        assert(ascii_lower(rest[1]) != ascii_lower(styled_close(j)[1]));
        assert(!starts_ci(rest, styled_close(j)));
        lemma_styled_reads(rest, acc, t, j + 1, k);
    }
}

/// Reading the opening texts of recorded tags records the same tags again.
proof fn lemma_rescan(s: Seq<char>, i: int, acc: TagStack, st: TagStack)
    requires
        0 <= i <= s.len(),
        s.skip(i) == opening_texts(st),
        all_recorded(st),
    ensures
        scan_tags(s, i, acc) == acc + st,
    decreases st.len(),
{
    if st.len() == 0 {
        assert(s.skip(i).len() == 0);
        assert(acc + st =~= acc);
    } else {
        let e = st[0];
        lemma_opening_texts_front(st);
        let rest = s.skip(i);
        let n = e.1.len() as int;
        assert(rest.take(n) =~= e.1);
        assert(rest.skip(n) =~= opening_texts(st.drop_first()));
        assert(recorded_tag(st[0]));
        let k = tag_index(e.0);
        if is_plain_kind(e.0) {
            lemma_tag_texts();
            lemma_plain_reads(rest, acc, 0, k);
            assert((plain_kind(k), plain_open(k)) == e);
        } else {
            lemma_tag_texts();
            assert(styled_text(e.1, k));
            lemma_plain_skips_styled(rest, acc, 0, k);
            lemma_styled_reads(rest, acc, e.1, 0, k);
            assert(styled_kind(k) == e.0);
            lemma_find_from(e.1, ">"@, 0);
        }
        assert(n > 0);
        assert(s.skip(i + n) =~= rest.skip(n));
        assert forall|t: int| 0 <= t < st.drop_first().len() implies recorded_tag(#[trigger] st.drop_first()[t]) by {
            assert(st.drop_first()[t] == st[t + 1]);
        }
        lemma_rescan(s, i + n, acc.push(e), st.drop_first());
        assert(acc.push(e) + st.drop_first() =~= acc + st);
    }
}

proof fn lemma_remove_keeps(st: TagStack, kind: TagKind)
    requires
        all_recorded(st),
    ensures
        all_recorded(remove_last_kind(st, kind)),
    decreases st.len(),
{
    if st.len() > 0 {
        assert(all_recorded(st.drop_last())) by {
            assert forall|t: int| 0 <= t < st.drop_last().len() implies recorded_tag(#[trigger] st.drop_last()[t]) by {
                assert(st.drop_last()[t] == st[t]);
            }
        }
        if st.last().0 != kind {
            lemma_remove_keeps(st.drop_last(), kind);
            assert(recorded_tag(st[st.len() - 1]));
        }
    }
}

proof fn lemma_plain_step_keeps(rest: Seq<char>, st: TagStack, k: int)
    requires
        all_recorded(st),
        0 <= k,
    ensures
        plain_step(rest, st, k) matches Some((st2, n)) ==> all_recorded(st2),
    decreases 4 - k,
{
    if 0 <= k < 4 {
        if starts_ci(rest, plain_open(k)) {
            assert(recorded_tag((plain_kind(k), plain_open(k))));
            let st2 = st.push((plain_kind(k), plain_open(k)));
            assert forall|t: int| 0 <= t < st2.len() implies recorded_tag(#[trigger] st2[t]) by {
                if t < st.len() {
                    assert(st2[t] == st[t]);
                }
            }
        } else if starts_ci(rest, plain_close(k)) {
            lemma_remove_keeps(st, plain_kind(k));
        } else {
            lemma_plain_step_keeps(rest, st, k + 1);
        }
    }
}

proof fn lemma_styled_step_keeps(rest: Seq<char>, st: TagStack, k: int)
    requires
        all_recorded(st),
        0 <= k,
    ensures
        styled_step(rest, st, k) matches Some((st2, n)) ==> all_recorded(st2),
    decreases 4 - k,
{
    lemma_tag_texts();
    if 0 <= k < 4 {
        if starts_ci(rest, styled_open(k)) && find(rest, ">"@) is Some {
            let e = find(rest, ">"@)->0;
            let open = styled_open(k);
            lemma_find_from(rest, ">"@, 0);
            assert(rest.subrange(e, e + 1) == seq!['>']);
            assert(rest[e] == rest.subrange(e, e + 1)[0]);
            assert(e >= open.len()) by {
                if e < open.len() {
                    assert(ascii_lower(rest[e]) == ascii_lower(open[e]));
                    lemma_lower_gt(open[e]);
                    assert(open[e] != '>');
                }
            }
            let t = rest.take(e + 1);
            assert forall|m: int| 0 <= m < open.len() implies ascii_lower(#[trigger] t[m]) == ascii_lower(open[m]) by {
                assert(t[m] == rest[m]);
            }
            assert(t.subrange(e, e + 1) =~= rest.subrange(e, e + 1));
            assert forall|j: int| 0 <= j < e implies !matches_at(t, j, ">"@) by {
                assert(!matches_at(rest, j, ">"@));
                assert(t.subrange(j, j + 1) =~= rest.subrange(j, j + 1));
            }
            lemma_find_exact(t, ">"@, 0, e);
            assert(styled_text(t, k));
            assert(recorded_tag((styled_kind(k), t)));
            let st2 = st.push((styled_kind(k), t));
            assert forall|q: int| 0 <= q < st2.len() implies recorded_tag(#[trigger] st2[q]) by {
                if q < st.len() {
                    assert(st2[q] == st[q]);
                }
            }
        } else if starts_ci(rest, styled_close(k)) {
            lemma_remove_keeps(st, styled_kind(k));
        } else {
            lemma_styled_step_keeps(rest, st, k + 1);
        }
    }
}

proof fn lemma_scan_keeps(s: Seq<char>, i: int, st: TagStack)
    requires
        all_recorded(st),
    ensures
        all_recorded(scan_tags(s, i, st)),
    decreases s.len() - i,
{
    if !(i < 0 || i >= s.len()) {
        let rest = s.skip(i);
        lemma_plain_step_keeps(rest, st, 0);
        lemma_styled_step_keeps(rest, st, 0);
        match plain_step(rest, st, 0) {
            Some((st2, n)) => if 0 < n && i + n <= s.len() {
                lemma_scan_keeps(s, i + n, st2);
            },
            None => match styled_step(rest, st, 0) {
                Some((st2, n)) => if 0 < n && i + n <= s.len() {
                    lemma_scan_keeps(s, i + n, st2);
                },
                None => {
                    lemma_scan_keeps(s, i + 1, st);
                },
            },
        }
    }
}

/// Collecting the open markup of the collected markup gives it back: the
/// prefix handed on holds only opening tags, and all of them stay open.
pub proof fn lemma_unclosed_prefix_stable(line: Seq<char>)
    ensures
        unclosed_prefix(unclosed_prefix(line)) == unclosed_prefix(line),
{
    let st = scan_tags(line, 0, Seq::empty());
    lemma_scan_keeps(line, 0, Seq::empty());
    let p = opening_texts(st);
    assert(p.skip(0) =~= p);
    lemma_rescan(p, 0, Seq::empty(), st);
    assert(Seq::<(TagKind, Seq<char>)>::empty() + st =~= st);
}


/// The letter of the `k`-th plain tag (`b`, `i`, `u`, `s`), in upper or
/// lower case.
pub open spec fn plain_letter(k: int, upper: bool) -> char {
    if k == 0 {
        if upper { 'B' } else { 'b' }
    } else if k == 1 {
        if upper { 'I' } else { 'i' }
    } else if k == 2 {
        if upper { 'U' } else { 'u' }
    } else {
        if upper { 'S' } else { 's' }
    }
}

/// Text that starts with the `k`-th plain opening, in any ASCII case, is
/// read as that tag.
proof fn lemma_plain_open_ci(rest: Seq<char>, acc: TagStack, j: int, k: int)
    requires
        0 <= j <= k < 4,
        starts_ci(rest, plain_open(k)),
    ensures
        plain_step(rest, acc, j) == Some((acc.push((plain_kind(k), plain_open(k))), 3int)),
    decreases k - j,
{
    lemma_tag_texts();
    assert(ascii_lower(rest[1]) == ascii_lower(plain_open(k)[1]));
    if j < k {
        assert(ascii_lower(rest[1]) != ascii_lower(plain_open(j)[1]));
        assert(!starts_ci(rest, plain_open(j)));
        assert(ascii_lower(rest[1]) != ascii_lower(plain_close(j)[1]));
        assert(!starts_ci(rest, plain_close(j)));
        lemma_plain_open_ci(rest, acc, j + 1, k);
    }
}

/// Text that starts with the `k`-th plain closing, in any ASCII case, is
/// read as that closing tag.
proof fn lemma_plain_close_ci(rest: Seq<char>, acc: TagStack, j: int, k: int)
    requires
        0 <= j <= k < 4,
        starts_ci(rest, plain_close(k)),
    ensures
        plain_step(rest, acc, j) == Some((remove_last_kind(acc, plain_kind(k)), 4int)),
    decreases k - j,
{
    lemma_tag_texts();
    assert(ascii_lower(rest[1]) == ascii_lower(plain_close(k)[1]));
    assert(ascii_lower(rest[2]) == ascii_lower(plain_close(k)[2]));
    assert(ascii_lower(rest[1]) != ascii_lower(plain_open(j)[1]));
    assert(!starts_ci(rest, plain_open(j)));
    if j < k {
        assert(ascii_lower(rest[2]) != ascii_lower(plain_close(j)[2]));
        assert(!starts_ci(rest, plain_close(j)));
        lemma_plain_close_ci(rest, acc, j + 1, k);
    }
}

/// Reading text without `<` changes nothing open.
proof fn lemma_scan_plain_span(s: Seq<char>, i: int, j: int, st: TagStack)
    requires
        0 <= i <= j <= s.len(),
        forall|t: int| i <= t < j ==> s[t] != '<',
    ensures
        scan_tags(s, i, st) == scan_tags(s, j, st),
    decreases j - i,
{
    if i < j {
        assert(s.skip(i)[0] == s[i]);
        lemma_no_tag_without_lt(s.skip(i), st, 0);
        lemma_scan_plain_span(s, i + 1, j, st);
    }
}

/// A plain tag closed again, each tag written in upper or lower case as one
/// likes, leaves nothing open: `<B>text</b>` hands nothing on.
pub proof fn lemma_closed_plain_tag_leaves_nothing_open(
    k: int,
    upper_open: bool,
    upper_close: bool,
    text: Seq<char>,
)
    requires
        0 <= k < 4,
        !text.contains('<'),
    ensures
        unclosed_prefix(
            seq!['<', plain_letter(k, upper_open), '>'] + text + seq!['<', '/', plain_letter(k, upper_close), '>'],
        ) == Seq::<char>::empty(),
{
    lemma_tag_texts();
    let o = seq!['<', plain_letter(k, upper_open), '>'];
    let c = seq!['<', '/', plain_letter(k, upper_close), '>'];
    let line = o + text + c;
    let e = Seq::<(TagKind, Seq<char>)>::empty();
    let st1 = e.push((plain_kind(k), plain_open(k)));
    let m: int = (text.len() + 3) as int;
    assert(line.skip(0) =~= line);
    assert(ascii_lower(line[0]) == ascii_lower(plain_open(k)[0]));
    assert(ascii_lower(line[1]) == ascii_lower(plain_open(k)[1]));
    assert(ascii_lower(line[2]) == ascii_lower(plain_open(k)[2]));
    assert(starts_ci(line, plain_open(k)));
    lemma_plain_open_ci(line, e, 0, k);
    assert(scan_tags(line, 0, e) == scan_tags(line, 3, st1));
    assert forall|t: int| 3 <= t < m implies line[t] != '<' by {
        assert(line[t] == text[t - 3]);
    }
    lemma_scan_plain_span(line, 3, m, st1);
    let rest = line.skip(m);
    assert(rest =~= c);
    assert(ascii_lower(rest[0]) == ascii_lower(plain_close(k)[0]));
    assert(ascii_lower(rest[1]) == ascii_lower(plain_close(k)[1]));
    assert(ascii_lower(rest[2]) == ascii_lower(plain_close(k)[2]));
    assert(ascii_lower(rest[3]) == ascii_lower(plain_close(k)[3]));
    assert(starts_ci(rest, plain_close(k)));
    lemma_plain_close_ci(rest, st1, 0, k);
    assert(st1.last().0 == plain_kind(k));
    assert(remove_last_kind(st1, plain_kind(k)) =~= e);
    assert(scan_tags(line, m, st1) == scan_tags(line, m + 4, e));
    assert(opening_texts(e) == Seq::<char>::empty());
}

} // verus!
