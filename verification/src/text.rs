//! Character-sequence model of the string operations the layout logic uses:
//! whitespace, trimming, searching, splitting and replacing.
use vstd::prelude::*;

verus! {

/// Unicode `White_Space` property, as `char::is_whitespace` defines it.
pub open spec fn is_ws(c: char) -> bool {
    let u = c as u32;
    ||| 0x09 <= u <= 0x0D
    ||| u == 0x20
    ||| u == 0x85
    ||| u == 0xA0
    ||| u == 0x1680
    ||| 0x2000 <= u <= 0x200A
    ||| u == 0x2028
    ||| u == 0x2029
    ||| u == 0x202F
    ||| u == 0x205F
    ||| u == 0x3000
}

/// `s` without its leading whitespace.
pub open spec fn trim_start(s: Seq<char>) -> Seq<char>
    decreases s.len(),
{
    if s.len() > 0 && is_ws(s[0]) {
        trim_start(s.drop_first())
    } else {
        s
    }
}

/// `s` without its trailing whitespace.
pub open spec fn trim_end(s: Seq<char>) -> Seq<char>
    decreases s.len(),
{
    if s.len() > 0 && is_ws(s.last()) {
        trim_end(s.drop_last())
    } else {
        s
    }
}

/// `s` without leading and trailing whitespace (`str::trim`).
pub open spec fn trim(s: Seq<char>) -> Seq<char> {
    trim_end(trim_start(s))
}

/// `p` occurs in `s` at position `i`.
pub open spec fn matches_at(s: Seq<char>, i: int, p: Seq<char>) -> bool {
    0 <= i && i + p.len() <= s.len() && s.subrange(i, i + p.len()) == p
}

/// First position at or after `i` where `p` occurs in `s`.
pub open spec fn find_from(s: Seq<char>, p: Seq<char>, i: int) -> Option<int>
    decreases s.len() - i,
{
    if i < 0 || i + p.len() > s.len() {
        None
    } else if matches_at(s, i, p) {
        Some(i)
    } else if i >= s.len() {
        None
    } else {
        find_from(s, p, i + 1)
    }
}

/// First position where `p` occurs in `s` (`str::find`).
pub open spec fn find(s: Seq<char>, p: Seq<char>) -> Option<int> {
    find_from(s, p, 0)
}

/// Every non-overlapping occurrence of `p` in `s`, scanned from the left,
/// replaced by `r` (`str::replace`); `p` is non-empty.
pub open spec fn replace_all(s: Seq<char>, p: Seq<char>, r: Seq<char>) -> Seq<char>
    decreases s.len(),
{
    if p.len() == 0 || s.len() == 0 {
        s
    } else if s.len() >= p.len() && s.take(p.len() as int) == p {
        r + replace_all(s.skip(p.len() as int), p, r)
    } else {
        seq![s[0]] + replace_all(s.drop_first(), p, r)
    }
}

/// Pieces of `s` between occurrences of the separator `p`, where `cur`
/// is the piece collected so far.
pub open spec fn split_acc(s: Seq<char>, p: Seq<char>, cur: Seq<char>) -> Seq<Seq<char>>
    decreases s.len(),
{
    if p.len() > 0 && s.len() >= p.len() && s.take(p.len() as int) == p {
        seq![cur] + split_acc(s.skip(p.len() as int), p, Seq::empty())
    } else if s.len() == 0 {
        seq![cur]
    } else {
        split_acc(s.drop_first(), p, cur.push(s[0]))
    }
}

/// Pieces of `s` between the occurrences of the non-empty separator `p`
/// (`str::split`).
pub open spec fn split(s: Seq<char>, p: Seq<char>) -> Seq<Seq<char>> {
    split_acc(s, p, Seq::empty())
}

pub(crate) fn is_whitespace(c: char) -> (res: bool)
    ensures
        res == is_ws(c),
{
    let u = c as u32;
    (0x09 <= u && u <= 0x0D) || u == 0x20 || u == 0x85 || u == 0xA0 || u == 0x1680 || (0x2000
        <= u && u <= 0x200A) || u == 0x2028 || u == 0x2029 || u == 0x202F || u == 0x205F || u
        == 0x3000
}

/// Characters of `s`.
pub(crate) fn chars_of(s: &str) -> (res: Vec<char>)
    ensures
        res@ == s@,
{
    let mut res: Vec<char> = Vec::new();
    for c in it: s.chars()
        invariant
            res@ == it.seq().take(it.index() as int),
            it.seq() == s@,
    {
        res.push(c);
    }
    res
}

/// Appends one character to a string (`String::push`).
#[verifier::external_body]
fn push_char(s: &mut String, c: char)
    ensures
        final(s)@ == old(s)@.push(c),
{
    s.push(c);
}

/// The string made of the characters `v`.
pub(crate) fn string_of(v: &Vec<char>) -> (res: String)
    ensures
        res@ == v@,
{
    let mut res = String::new();
    for i in 0..v.len()
        invariant
            res@ == v@.take(i as int),
    {
        push_char(&mut res, v[i]);
        assert(v@.take(i + 1) == v@.take(i as int).push(v@[i as int]));
    }
    assert(v@.take(v.len() as int) == v@);
    res
}

/// Bounds of `v` with leading and trailing whitespace cut off.
pub(crate) fn trim_bounds(v: &Vec<char>) -> (res: (usize, usize))
    ensures
        res.0 <= res.1 <= v.len(),
        v@.subrange(res.0 as int, res.1 as int) == trim(v@),
{
    let n = v.len();
    let mut a: usize = 0;
    assert(v@.subrange(0, n as int) == v@);
    while a < n && is_whitespace(v[a])
        invariant
            a <= n == v.len(),
            trim_start(v@) == trim_start(v@.subrange(a as int, n as int)),
        decreases n - a,
    {
        assert(v@.subrange(a as int, n as int).drop_first() == v@.subrange(a + 1, n as int));
        a = a + 1;
    }
    let mut b: usize = n;
    while b > a && is_whitespace(v[b - 1])
        invariant
            a <= b <= n == v.len(),
            trim_start(v@) == v@.subrange(a as int, n as int),
            trim(v@) == trim_end(v@.subrange(a as int, b as int)),
        decreases b,
    {
        assert(v@.subrange(a as int, b as int).drop_last() == v@.subrange(a as int, b - 1));
        b = b - 1;
    }
    (a, b)
}

/// `v` with leading and trailing whitespace removed.
pub(crate) fn trim_chars(v: &Vec<char>) -> (res: Vec<char>)
    ensures
        res@ == trim(v@),
{
    let (a, b) = trim_bounds(v);
    slice_chars(v, a, b)
}

/// The characters of `v` from `a` up to `b`.
pub(crate) fn slice_chars(v: &Vec<char>, a: usize, b: usize) -> (res: Vec<char>)
    requires
        a <= b <= v.len(),
    ensures
        res@ == v@.subrange(a as int, b as int),
{
    let mut res: Vec<char> = Vec::new();
    let mut i = a;
    while i < b
        invariant
            a <= i <= b <= v.len(),
            res@ == v@.subrange(a as int, i as int),
        decreases b - i,
    {
        res.push(v[i]);
        i = i + 1;
    }
    res
}

/// Whether `p` occurs in `s` at position `i`.
pub(crate) fn matches_at_exec(s: &Vec<char>, i: usize, p: &Vec<char>) -> (res: bool)
    ensures
        res == matches_at(s@, i as int, p@),
{
    if i > s.len() || p.len() > s.len() - i {
        return false;
    }
    let mut k: usize = 0;
    while k < p.len()
        invariant
            i + p.len() <= s.len(),
            k <= p.len(),
            forall|j: int| 0 <= j < k ==> s@[i + j] == p@[j],
        decreases p.len() - k,
    {
        if s[i + k] != p[k] {
            assert(s@.subrange(i as int, i + p.len())[k as int] != p@[k as int]);
            return false;
        }
        k = k + 1;
    }
    assert(s@.subrange(i as int, i + p.len()) =~= p@);
    true
}


/// The view of each character vector.
pub open spec fn char_views(v: Seq<Vec<char>>) -> Seq<Seq<char>> {
    v.map_values(|x: Vec<char>| x@)
}

/// The view of each string.
pub open spec fn string_views(v: Seq<String>) -> Seq<Seq<char>> {
    v.map_values(|x: String| x@)
}

/// A match found by `find_from` is a real occurrence, and none lies
/// between the start and it.
pub proof fn lemma_find_from(s: Seq<char>, p: Seq<char>, i: int)
    requires
        0 <= i,
    ensures
        find_from(s, p, i) matches Some(k) ==> i <= k && matches_at(s, k, p) && forall|j: int|
            i <= j < k ==> !matches_at(s, j, p),
        find_from(s, p, i) is None ==> forall|j: int| i <= j ==> !matches_at(s, j, p),
    decreases s.len() - i,
{
    if i + p.len() > s.len() || matches_at(s, i, p) || i >= s.len() {
    } else {
        lemma_find_from(s, p, i + 1);
    }
}

/// `r` appended to `out`.
pub(crate) fn append_chars(out: &mut Vec<char>, r: &Vec<char>)
    ensures
        final(out)@ == old(out)@ + r@,
{
    let ghost start = out@;
    for k in 0..r.len()
        invariant
            out@ == start + r@.take(k as int),
    {
        out.push(r[k]);
        assert(r@.take(k + 1) == r@.take(k as int).push(r@[k as int]));
    }
    assert(r@.take(r.len() as int) == r@);
}

/// First position where `p` occurs in `s`.
pub(crate) fn find_chars(s: &Vec<char>, p: &Vec<char>) -> (res: Option<usize>)
    ensures
        match res {
            Some(i) => find(s@, p@) == Some(i as int),
            None => find(s@, p@) is None,
        },
{
    let mut i: usize = 0;
    while i <= s.len()
        invariant
            i <= s.len() + 1,
            find(s@, p@) == find_from(s@, p@, i as int),
        decreases s.len() + 1 - i,
    {
        if p.len() > s.len() - i {
            return None;
        }
        if matches_at_exec(s, i, p) {
            return Some(i);
        }
        if i == s.len() {
            return None;
        }
        i = i + 1;
    }
    None
}

/// `s` with every occurrence of the non-empty `p` replaced by `r`.
pub(crate) fn replace_chars(s: &Vec<char>, p: &Vec<char>, r: &Vec<char>) -> (res: Vec<char>)
    requires
        p.len() > 0,
    ensures
        res@ == replace_all(s@, p@, r@),
{
    let mut out: Vec<char> = Vec::new();
    let mut i: usize = 0;
    assert(s@.skip(0) == s@);
    while i < s.len()
        invariant
            i <= s.len(),
            p.len() > 0,
            replace_all(s@, p@, r@) == out@ + replace_all(s@.skip(i as int), p@, r@),
        decreases s.len() - i,
    {
        let ghost t = s@.skip(i as int);
        if matches_at_exec(s, i, p) {
            assert(t.take(p.len() as int) == s@.subrange(i as int, i + p.len()));
            assert(t.skip(p.len() as int) == s@.skip(i + p.len()));
            append_chars(&mut out, r);
            i = i + p.len();
        } else {
            assert(t.len() >= p.len() ==> t.take(p.len() as int) == s@.subrange(
                i as int,
                i + p.len(),
            ));
            assert(t.drop_first() == s@.skip(i + 1));
            assert(t[0] == s@[i as int]);
            out.push(s[i]);
            i = i + 1;
        }
    }
    assert(s@.skip(i as int).len() == 0);
    out
}

/// Pieces of `s` between the occurrences of the non-empty separator `p`.
pub(crate) fn split_chars(s: &Vec<char>, p: &Vec<char>) -> (res: Vec<Vec<char>>)
    requires
        p.len() > 0,
    ensures
        char_views(res@) == split(s@, p@),
{
    let mut res: Vec<Vec<char>> = Vec::new();
    let mut cur: Vec<char> = Vec::new();
    let mut i: usize = 0;
    assert(s@.skip(0) == s@);
    while i < s.len()
        invariant
            i <= s.len(),
            p.len() > 0,
            split(s@, p@) == char_views(res@) + split_acc(s@.skip(i as int), p@, cur@),
        decreases s.len() - i,
    {
        let ghost t = s@.skip(i as int);
        if matches_at_exec(s, i, p) {
            assert(t.take(p.len() as int) == s@.subrange(i as int, i + p.len()));
            assert(t.skip(p.len() as int) == s@.skip(i + p.len()));
            let piece = cur;
            res.push(piece);
            cur = Vec::new();
            i = i + p.len();
        } else {
            assert(t.len() >= p.len() ==> t.take(p.len() as int) == s@.subrange(
                i as int,
                i + p.len(),
            ));
            assert(t.drop_first() == s@.skip(i + 1));
            assert(t[0] == s@[i as int]);
            cur.push(s[i]);
            i = i + 1;
        }
    }
    assert(s@.skip(i as int).len() == 0);
    res.push(cur);
    res
}

/// Each character vector as a string.
pub(crate) fn strings_of(v: &Vec<Vec<char>>) -> (res: Vec<String>)
    ensures
        string_views(res@) == char_views(v@),
{
    let mut res: Vec<String> = Vec::new();
    for i in 0..v.len()
        invariant
            res.len() == i,
            forall|j: int| 0 <= j < i ==> #[trigger] res@[j]@ == v@[j]@,
    {
        res.push(string_of(&v[i]));
    }
    assert(string_views(res@) =~= char_views(v@));
    res
}


/// Whether two strings hold the same characters.
pub(crate) fn str_eq(a: &str, b: &str) -> (res: bool)
    ensures
        res == (a@ == b@),
{
    let x = a.to_owned();
    let y = b.to_owned();
    x == y
}

/// `s` with every occurrence of the non-empty `p` replaced by `r`.
pub(crate) fn replace_str(s: &Vec<char>, p: &str, r: &str) -> (res: Vec<char>)
    requires
        p@.len() > 0,
    ensures
        res@ == replace_all(s@, p@, r@),
{
    let pv = chars_of(p);
    let rv = chars_of(r);
    replace_chars(s, &pv, &rv)
}

/// Pieces of `s` between the occurrences of the non-empty separator `p`.
pub(crate) fn split_str(s: &Vec<char>, p: &str) -> (res: Vec<Vec<char>>)
    requires
        p@.len() > 0,
    ensures
        char_views(res@) == split(s@, p@),
{
    let pv = chars_of(p);
    split_chars(s, &pv)
}


/// `l` without one trailing carriage return.
pub open spec fn strip_cr(l: Seq<char>) -> Seq<char> {
    if l.len() > 0 && l.last() == '\r' {
        l.drop_last()
    } else {
        l
    }
}

/// Lines of `s` (`str::lines`): pieces between `\n`, each without the
/// `\r` of a `\r\n` ending; a final empty piece is not a line.
pub open spec fn lines(s: Seq<char>) -> Seq<Seq<char>> {
    let parts = split(s, seq!['\n']);
    let n = parts.len() as int;
    Seq::new(
        (if parts[n - 1].len() == 0 {
            n - 1
        } else {
            n
        }) as nat,
        |i: int|
            if i < n - 1 {
                strip_cr(parts[i])
            } else {
                parts[i]
            },
    )
}

/// Every piece of `parts` split at `p`, one after another.
pub open spec fn split_each(parts: Seq<Seq<char>>, p: Seq<char>) -> Seq<Seq<char>>
    decreases parts.len(),
{
    if parts.len() == 0 {
        Seq::empty()
    } else {
        split_each(parts.drop_last(), p) + split(parts.last(), p)
    }
}

/// Each piece trimmed.
pub open spec fn trim_each(parts: Seq<Seq<char>>) -> Seq<Seq<char>> {
    parts.map_values(|l: Seq<char>| trim(l))
}

/// Splitting always yields at least one piece.
pub proof fn lemma_split_acc_len(s: Seq<char>, p: Seq<char>, cur: Seq<char>)
    ensures
        split_acc(s, p, cur).len() >= 1,
    decreases s.len(),
{
    if p.len() > 0 && s.len() >= p.len() && s.take(p.len() as int) == p {
        lemma_split_acc_len(s.skip(p.len() as int), p, Seq::empty());
    } else if s.len() == 0 {
    } else {
        lemma_split_acc_len(s.drop_first(), p, cur.push(s[0]));
    }
}

/// Each character vector trimmed, as strings.
pub(crate) fn trimmed_strings(v: &Vec<Vec<char>>) -> (res: Vec<String>)
    ensures
        string_views(res@) == trim_each(char_views(v@)),
{
    let mut res: Vec<String> = Vec::new();
    for i in 0..v.len()
        invariant
            res.len() == i,
            forall|j: int| 0 <= j < i ==> #[trigger] res@[j]@ == trim(v@[j]@),
    {
        let t = trim_chars(&v[i]);
        res.push(string_of(&t));
    }
    assert(string_views(res@) =~= trim_each(char_views(v@)));
    res
}

/// `l` without one trailing carriage return.
pub(crate) fn strip_cr_chars(l: Vec<char>) -> (res: Vec<char>)
    ensures
        res@ == strip_cr(l@),
{
    let mut l = l;
    if l.len() > 0 && l[l.len() - 1] == '\r' {
        l.pop();
    }
    l
}

/// Lines of `s`.
pub(crate) fn lines_chars(s: &Vec<char>) -> (res: Vec<Vec<char>>)
    ensures
        char_views(res@) == lines(s@),
{
    let nl = vec!['\n'];
    assert(nl@ == seq!['\n']);
    let parts = split_chars(s, &nl);
    proof {
        lemma_split_acc_len(s@, seq!['\n'], Seq::empty());
    }
    let n = parts.len();
    let count = if parts[n - 1].len() == 0 {
        n - 1
    } else {
        n
    };
    let mut res: Vec<Vec<char>> = Vec::new();
    for i in 0..count
        invariant
            count <= n == parts.len(),
            n >= 1,
            res.len() == i,
            forall|j: int|
                0 <= j < i ==> #[trigger] res@[j]@ == (if j < n - 1 {
                    strip_cr(parts@[j]@)
                } else {
                    parts@[j]@
                }),
    {
        let piece = slice_chars(&parts[i], 0, parts[i].len());
        assert(piece@ == parts@[i as int]@);
        if i < n - 1 {
            res.push(strip_cr_chars(piece));
        } else {
            res.push(piece);
        }
    }
    assert(char_views(res@) =~= lines(s@));
    res
}


/// Whether one of `names` holds the characters of `name`.
pub(crate) fn contains_name(names: &Vec<String>, name: &str) -> (res: bool)
    ensures
        res == string_views(names@).contains(name@),
{
    for i in 0..names.len()
        invariant
            forall|j: int| 0 <= j < i ==> names@[j]@ != name@,
    {
        if str_eq(names[i].as_str(), name) {
            assert(string_views(names@)[i as int] == name@);
            return true;
        }
    }
    assert(!string_views(names@).contains(name@)) by {
        if string_views(names@).contains(name@) {
            let j = choose|j: int|
                0 <= j < string_views(names@).len() && string_views(names@)[j] == name@;
            assert(names@[j]@ == name@);
        }
    }
    false
}


/// Every piece of `parts` split at the non-empty separator `p`, one after
/// another.
pub(crate) fn split_each_chars(parts: &Vec<Vec<char>>, p: &Vec<char>) -> (res: Vec<Vec<char>>)
    requires
        p.len() > 0,
    ensures
        char_views(res@) == split_each(char_views(parts@), p@),
{
    let mut res: Vec<Vec<char>> = Vec::new();
    for i in 0..parts.len()
        invariant
            p.len() > 0,
            char_views(res@) == split_each(char_views(parts@.take(i as int)), p@),
    {
        assert(char_views(parts@.take(i + 1)).drop_last() =~= char_views(parts@.take(i as int)));
        assert(char_views(parts@.take(i + 1)).last() == parts@[i as int]@);
        let pieces = split_chars(&parts[i], p);
        let ghost before = res@;
        for k in 0..pieces.len()
            invariant
                char_views(res@) == char_views(before) + char_views(pieces@.take(k as int)),
        {
            let piece = slice_chars(&pieces[k], 0, pieces[k].len());
            assert(piece@ == pieces@[k as int]@);
            let ghost old_res = res@;
            res.push(piece);
            assert(char_views(res@) =~= char_views(old_res).push(piece@));
            assert(char_views(pieces@.take(k + 1)) =~= char_views(pieces@.take(k as int)).push(
                pieces@[k as int]@,
            ));
            assert(char_views(res@) =~= char_views(before) + char_views(pieces@.take(k + 1)));
        }
        assert(pieces@.take(pieces.len() as int) =~= pieces@);
    }
    assert(parts@.take(parts.len() as int) =~= parts@);
    res
}

/// Replacing a pattern whose first character does not occur changes
/// nothing.
pub proof fn lemma_replace_absent(s: Seq<char>, p: Seq<char>, r: Seq<char>)
    requires
        p.len() > 0,
        !s.contains(p[0]),
    ensures
        replace_all(s, p, r) == s,
    decreases s.len(),
{
    if s.len() > 0 {
        assert(s[0] != p[0]);
        assert(!(s.len() >= p.len() && s.take(p.len() as int) == p)) by {
            if s.len() >= p.len() && s.take(p.len() as int) == p {
                assert(s.take(p.len() as int)[0] == s[0]);
            }
        }
        assert forall|j: int| 0 <= j < s.drop_first().len() implies s.drop_first()[j] != p[0] by {
            assert(s.drop_first()[j] == s[j + 1]);
        }
        lemma_replace_absent(s.drop_first(), p, r);
        assert(seq![s[0]] + s.drop_first() =~= s);
    }
}

proof fn lemma_trim_start_head(s: Seq<char>)
    ensures
        trim_start(s).len() > 0 ==> !is_ws(trim_start(s)[0]),
    decreases s.len(),
{
    if s.len() > 0 && is_ws(s[0]) {
        lemma_trim_start_head(s.drop_first());
    }
}

proof fn lemma_trim_end_prefix(s: Seq<char>)
    ensures
        trim_end(s).len() <= s.len(),
        trim_end(s) == s.take(trim_end(s).len() as int),
        trim_end(s).len() > 0 ==> !is_ws(trim_end(s).last()),
    decreases s.len(),
{
    if s.len() > 0 && is_ws(s.last()) {
        lemma_trim_end_prefix(s.drop_last());
        assert(s.drop_last().take(trim_end(s).len() as int) =~= s.take(trim_end(s).len() as int));
    } else {
        assert(s.take(s.len() as int) =~= s);
    }
}

/// Trimmed text neither starts nor ends with whitespace.
pub proof fn lemma_trim_trimmed(s: Seq<char>)
    ensures
        trim(s).len() > 0 ==> !is_ws(trim(s)[0]) && !is_ws(trim(s).last()),
{
    lemma_trim_start_head(s);
    lemma_trim_end_prefix(trim_start(s));
    if trim(s).len() > 0 {
        assert(trim(s)[0] == trim_start(s)[0]);
    }
}

} // verus!
