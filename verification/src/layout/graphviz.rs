//! Graph description handed to the Graphviz layout, and the reading of
//! the SVG that Graphviz writes back.
use vstd::prelude::*;
use vstd::string::StrSliceExecFns;

use crate::text::{
    append_chars, chars_of, find, matches_at, matches_at_exec, find_chars, lemma_find_from,
    slice_chars, string_of,
};

verus! {

/// A graph edge.
#[derive(Debug, Clone)]
pub struct LayoutEdge {
    pub from: String,
    pub to: String,
    pub label: Option<String>,
    pub minlen: u32,
    pub invisible: bool,
}

/// The values an edge carries: endpoints, label, minimum rank distance
/// and visibility.
pub type EdgeView = (Seq<char>, Seq<char>, Option<Seq<char>>, u32, bool);

/// The view of an edge.
pub open spec fn edge_view(e: LayoutEdge) -> EdgeView {
    (e.from@, e.to@, crate::model::opt_view(e.label), e.minlen, e.invisible)
}

/// The views of edges.
pub open spec fn edge_views(es: Seq<LayoutEdge>) -> Seq<EdgeView> {
    es.map_values(|e: LayoutEdge| edge_view(e))
}

/// Layout direction.
#[derive(Debug, Clone, Copy, PartialEq, Eq, Structural)]
pub enum RankDir {
    TopToBottom,
    LeftToRight,
    BottomToTop,
    RightToLeft,
}

impl Default for RankDir {
    fn default() -> (res: RankDir)
        ensures
            res == RankDir::TopToBottom,
    {
        RankDir::TopToBottom
    }
}

/// The DOT `rankdir` keyword of a direction.
pub open spec fn rankdir_keyword(r: RankDir) -> Seq<char> {
    match r {
        RankDir::TopToBottom => "TB"@,
        RankDir::LeftToRight => "LR"@,
        RankDir::BottomToTop => "BT"@,
        RankDir::RightToLeft => "RL"@,
    }
}

impl RankDir {
    /// The DOT `rankdir` keyword of this direction.
    pub fn as_str(&self) -> (res: &'static str)
        ensures
            res@ == rankdir_keyword(*self),
    {
        match self {
            RankDir::TopToBottom => "TB",
            RankDir::LeftToRight => "LR",
            RankDir::BottomToTop => "BT",
            RankDir::RightToLeft => "RL",
        }
    }
}


/// The XML entity that `s` starts with, if any: its length and the
/// character it stands for. These are the entities Graphviz writes in SVG
/// text: `&amp;`, `&lt;`, `&gt;`, `&quot;`, `&#45;` and `&#39;`.
pub open spec fn leading_entity(s: Seq<char>) -> Option<(nat, char)> {
    if s.len() >= 5 && s.take(5) == seq!['&', 'a', 'm', 'p', ';'] {
        Some((5, '&'))
    } else if s.len() >= 4 && s.take(4) == seq!['&', 'l', 't', ';'] {
        Some((4, '<'))
    } else if s.len() >= 4 && s.take(4) == seq!['&', 'g', 't', ';'] {
        Some((4, '>'))
    } else if s.len() >= 6 && s.take(6) == seq!['&', 'q', 'u', 'o', 't', ';'] {
        Some((6, '"'))
    } else if s.len() >= 5 && s.take(5) == seq!['&', '#', '4', '5', ';'] {
        Some((5, '-'))
    } else if s.len() >= 5 && s.take(5) == seq!['&', '#', '3', '9', ';'] {
        Some((5, '\''))
    } else {
        None
    }
}

proof fn lemma_leading_entity_len(s: Seq<char>)
    ensures
        leading_entity(s) matches Some((n, c)) ==> 4 <= n <= s.len(),
{
}

/// Text with its XML entities decoded in one pass from left to right:
/// each entity becomes its character, and what a decoding produces is not
/// read again, so `&amp;lt;` gives `&lt;`.
pub open spec fn xml_decoded(s: Seq<char>) -> Seq<char>
    decreases s.len(),
{
    if s.len() == 0 {
        s
    } else {
        match leading_entity(s) {
            Some((n, c)) => seq![c] + xml_decoded(s.skip(n as int)),
            None => seq![s[0]] + xml_decoded(s.drop_first()),
        }
    }
}

/// Text without `&` holds no entity and is left as it is.
pub proof fn lemma_decode_plain(s: Seq<char>)
    requires
        !s.contains('&'),
    ensures
        xml_decoded(s) == s,
    decreases s.len(),
{
    if s.len() > 0 {
        assert(s[0] != '&');
        assert(s.len() >= 4 ==> s.take(4)[0] == s[0]);
        assert(s.len() >= 5 ==> s.take(5)[0] == s[0]);
        assert(s.len() >= 6 ==> s.take(6)[0] == s[0]);
        assert(leading_entity(s) is None);
        assert forall|j: int| 0 <= j < s.drop_first().len() implies s.drop_first()[j] != '&' by {
            assert(s.drop_first()[j] == s[j + 1]);
        }
        lemma_decode_plain(s.drop_first());
        assert(seq![s[0]] + s.drop_first() =~= s);
    }
}

/// Each entity stands for its character, and what follows it is decoded
/// on its own: `&amp;` is `&`, `&lt;` is `<`, `&gt;` is `>`, `&quot;` is
/// `"`, `&#45;` is `-` and `&#39;` is `'`; any other character stays.
pub proof fn lemma_entities_decode(rest: Seq<char>, c: char)
    ensures
        xml_decoded(seq!['&', 'a', 'm', 'p', ';'] + rest) == seq!['&'] + xml_decoded(rest),
        xml_decoded(seq!['&', 'l', 't', ';'] + rest) == seq!['<'] + xml_decoded(rest),
        xml_decoded(seq!['&', 'g', 't', ';'] + rest) == seq!['>'] + xml_decoded(rest),
        xml_decoded(seq!['&', 'q', 'u', 'o', 't', ';'] + rest) == seq!['"'] + xml_decoded(rest),
        xml_decoded(seq!['&', '#', '4', '5', ';'] + rest) == seq!['-'] + xml_decoded(rest),
        xml_decoded(seq!['&', '#', '3', '9', ';'] + rest) == seq!['\''] + xml_decoded(rest),
        c != '&' ==> xml_decoded(seq![c] + rest) == seq![c] + xml_decoded(rest),
{
    let a = seq!['&', 'a', 'm', 'p', ';'] + rest;
    assert(a.take(5) =~= seq!['&', 'a', 'm', 'p', ';']);
    assert(a.skip(5) =~= rest);
    let l = seq!['&', 'l', 't', ';'] + rest;
    assert(l.take(4) =~= seq!['&', 'l', 't', ';']);
    assert(l.skip(4) =~= rest);
    assert(l.len() >= 5 ==> l.take(5)[1] == 'l');
    let g = seq!['&', 'g', 't', ';'] + rest;
    assert(g.take(4) =~= seq!['&', 'g', 't', ';']);
    assert(g.skip(4) =~= rest);
    assert(g.len() >= 5 ==> g.take(5)[1] == 'g');
    assert(g.take(4)[1] == 'g');
    let q = seq!['&', 'q', 'u', 'o', 't', ';'] + rest;
    assert(q.take(6) =~= seq!['&', 'q', 'u', 'o', 't', ';']);
    assert(q.skip(6) =~= rest);
    assert(q.take(5)[1] == 'q' && q.take(4)[1] == 'q');
    let d = seq!['&', '#', '4', '5', ';'] + rest;
    assert(d.take(5) =~= seq!['&', '#', '4', '5', ';']);
    assert(d.skip(5) =~= rest);
    assert(d.take(4)[1] == '#');
    assert(d.len() >= 6 ==> d.take(6)[1] == '#');
    let p = seq!['&', '#', '3', '9', ';'] + rest;
    assert(p.take(5) =~= seq!['&', '#', '3', '9', ';']);
    assert(p.skip(5) =~= rest);
    assert(p.take(4)[1] == '#' && p.take(5)[2] == '3');
    assert(p.len() >= 6 ==> p.take(6)[1] == '#');
    let o = seq![c] + rest;
    assert(o.drop_first() =~= rest);
    if c != '&' {
        assert(o.len() >= 4 ==> o.take(4)[0] == c);
        assert(o.len() >= 5 ==> o.take(5)[0] == c);
        assert(o.len() >= 6 ==> o.take(6)[0] == c);
    }
}

/// A pattern occurs at `i` exactly when the text from `i` on starts with it.
proof fn lemma_match_skip(s: Seq<char>, i: int, p: Seq<char>)
    requires
        0 <= i <= s.len(),
    ensures
        matches_at(s, i, p) <==> (s.skip(i).len() >= p.len() && s.skip(i).take(p.len() as int) == p),
{
    if i + p.len() <= s.len() {
        assert(s.subrange(i, i + p.len()) =~= s.skip(i).take(p.len() as int));
    }
}

/// The entity at position `i` of `v`, as its length and character.
fn entity_at(v: &Vec<char>, i: usize) -> (res: Option<(usize, char)>)
    requires
        i < v.len(),
    ensures
        match res {
            Some((n, c)) => leading_entity(v@.skip(i as int)) == Some((n as nat, c)),
            None => leading_entity(v@.skip(i as int)) is None,
        },
{
    let amp: Vec<char> = vec!['&', 'a', 'm', 'p', ';'];
    let lt: Vec<char> = vec!['&', 'l', 't', ';'];
    let gt: Vec<char> = vec!['&', 'g', 't', ';'];
    let quot: Vec<char> = vec!['&', 'q', 'u', 'o', 't', ';'];
    let dash: Vec<char> = vec!['&', '#', '4', '5', ';'];
    let apos: Vec<char> = vec!['&', '#', '3', '9', ';'];
    proof {
        lemma_match_skip(v@, i as int, amp@);
        lemma_match_skip(v@, i as int, lt@);
        lemma_match_skip(v@, i as int, gt@);
        lemma_match_skip(v@, i as int, quot@);
        lemma_match_skip(v@, i as int, dash@);
        lemma_match_skip(v@, i as int, apos@);
    }
    if matches_at_exec(v, i, &amp) {
        Some((5, '&'))
    } else if matches_at_exec(v, i, &lt) {
        Some((4, '<'))
    } else if matches_at_exec(v, i, &gt) {
        Some((4, '>'))
    } else if matches_at_exec(v, i, &quot) {
        Some((6, '"'))
    } else if matches_at_exec(v, i, &dash) {
        Some((5, '-'))
    } else if matches_at_exec(v, i, &apos) {
        Some((5, '\''))
    } else {
        None
    }
}

fn decode_chars(v: &Vec<char>) -> (res: Vec<char>)
    ensures
        res@ == xml_decoded(v@),
{
    let mut out: Vec<char> = Vec::new();
    let mut i: usize = 0;
    assert(v@.skip(0) =~= v@);
    while i < v.len()
        invariant
            i <= v.len(),
            xml_decoded(v@) == out@ + xml_decoded(v@.skip(i as int)),
        decreases v.len() - i,
    {
        let ghost t = v@.skip(i as int);
        match entity_at(v, i) {
            Some((n, c)) => {
                proof {
                    lemma_leading_entity_len(t);
                    assert(t.skip(n as int) =~= v@.skip(i + n));
                    assert(out@.push(c) + xml_decoded(t.skip(n as int)) =~= out@ + (seq![c]
                        + xml_decoded(t.skip(n as int))));
                }
                out.push(c);
                i = i + n;
            },
            None => {
                proof {
                    assert(t.drop_first() =~= v@.skip(i + 1));
                    assert(out@.push(v@[i as int]) + xml_decoded(t.drop_first()) =~= out@ + (seq![t[0]]
                        + xml_decoded(t.drop_first())));
                }
                out.push(v[i]);
                i = i + 1;
            },
        }
    }
    assert(v@.skip(i as int) =~= Seq::<char>::empty());
    assert(out@ + Seq::<char>::empty() =~= out@);
    out
}

/// Decodes the basic XML entities used in Graphviz SVG output.
pub fn decode_xml_entities(s: &str) -> (res: String)
    ensures
        res@ == xml_decoded(s@),
{
    let v = chars_of(s);
    let d = decode_chars(&v);
    string_of(&d)
}

/// Decoded text of the first `<title>` element of `s`: what lies between
/// the first `<title>` and the first `</title>` after it.
pub open spec fn title_text(s: Seq<char>) -> Option<Seq<char>> {
    match find(s, "<title>"@) {
        None => None,
        Some(a) => {
            let rest = s.skip(a + "<title>"@.len());
            match find(rest, "</title>"@) {
                None => None,
                Some(k) => Some(xml_decoded(rest.take(k))),
            }
        },
    }
}

/// Extracts the text of the first `<title>` element, with XML entities
/// decoded.
pub fn parse_title(s: &str) -> (res: Option<String>)
    ensures
        match res {
            Some(t) => title_text(s@) == Some(t@),
            None => title_text(s@) is None,
        },
{
    let v = chars_of(s);
    let start_tag = chars_of("<title>");
    let end_tag = chars_of("</title>");
    let a = match find_chars(&v, &start_tag) {
        Some(a) => a,
        None => return None,
    };
    proof {
        lemma_find_from(v@, start_tag@, 0);
        assert(matches_at(v@, a as int, start_tag@));
        assert(a + start_tag@.len() <= v@.len());
        assert(a + start_tag.len() <= v.len());
    }
    let b = a + start_tag.len();
    let rest = slice_chars(&v, b, v.len());
    assert(rest@ == v@.skip(b as int));
    let k = match find_chars(&rest, &end_tag) {
        Some(k) => k,
        None => return None,
    };
    proof {
        lemma_find_from(rest@, end_tag@, 0);
    }
    let raw = slice_chars(&rest, 0, k);
    assert(raw@ == rest@.take(k as int));
    let d = decode_chars(&raw);
    Some(string_of(&d))
}

/// Endpoints of an edge title `FROM->TO`: split at the first `->`, both
/// sides non-empty.
pub open spec fn edge_endpoints(title: Seq<char>) -> Option<(Seq<char>, Seq<char>)> {
    match find(title, "->"@) {
        None => None,
        Some(k) => {
            let from = title.take(k);
            let to = title.skip(k + 2);
            if from.len() == 0 || to.len() == 0 {
                None
            } else {
                Some((from, to))
            }
        },
    }
}

/// Parses an edge title `FROM->TO`.
pub fn parse_edge_title(title: &str) -> (res: Option<(String, String)>)
    ensures
        match res {
            Some((f, t)) => edge_endpoints(title@) == Some((f@, t@)),
            None => edge_endpoints(title@) is None,
        },
{
    proof {
        reveal_strlit("->");
    }
    let v = chars_of(title);
    let arrow = chars_of("->");
    let k = match find_chars(&v, &arrow) {
        Some(k) => k,
        None => return None,
    };
    proof {
        lemma_find_from(v@, arrow@, 0);
        assert(matches_at(v@, k as int, arrow@));
        assert(k + arrow.len() <= v.len());
    }
    let from = slice_chars(&v, 0, k);
    let to = slice_chars(&v, k + 2, v.len());
    assert(from@ == v@.take(k as int));
    assert(to@ == v@.skip(k + 2));
    if from.len() == 0 || to.len() == 0 {
        return None;
    }
    Some((string_of(&from), string_of(&to)))
}

/// Position just past the first occurrence of `attr="` in `elem`, and the
/// length of the value that runs up to the next `"`.
pub open spec fn attr_value_span(elem: Seq<char>, attr: Seq<char>) -> Option<(int, int)> {
    let pattern = attr + "=\""@;
    match find(elem, pattern) {
        None => None,
        Some(pos) => {
            let start = pos + pattern.len();
            match find(elem.skip(start), "\""@) {
                None => None,
                Some(end) => Some((start, end)),
            }
        },
    }
}

/// The value of the attribute `attr` in `elem`, as written.
pub open spec fn attr_value(elem: Seq<char>, attr: Seq<char>) -> Option<Seq<char>> {
    match attr_value_span(elem, attr) {
        None => None,
        Some((start, end)) => Some(elem.subrange(start, start + end)),
    }
}

/// Reads a string XML attribute value, e.g. `points="1,2 3,4"` gives
/// `1,2 3,4`.
pub fn parse_xml_attr_str<'a>(elem: &'a str, attr_name: &str) -> (res: Option<&'a str>)
    ensures
        match res {
            Some(t) => attr_value(elem@, attr_name@) == Some(t@),
            None => attr_value(elem@, attr_name@) is None,
        },
{
    let v = chars_of(elem);
    let mut pattern = chars_of(attr_name);
    let tail = chars_of("=\"");
    append_chars(&mut pattern, &tail);
    let quote = chars_of("\"");
    let pos = match find_chars(&v, &pattern) {
        Some(p) => p,
        None => return None,
    };
    proof {
        lemma_find_from(v@, pattern@, 0);
        assert(matches_at(v@, pos as int, pattern@));
        assert(pos + pattern.len() <= v.len());
    }
    let start = pos + pattern.len();
    let after = slice_chars(&v, start, v.len());
    assert(after@ == v@.skip(start as int));
    let end = match find_chars(&after, &quote) {
        Some(e) => e,
        None => return None,
    };
    proof {
        lemma_find_from(after@, quote@, 0);
    }
    Some(elem.substring_char(start, start + end))
}

/// Separators between coordinates: commas and whitespace.
pub open spec fn is_coord_separator(c: char) -> bool {
    c == ',' || c == ' ' || c == '\t' || c == '\n' || c == '\r'
}

/// First position at or after `i` that holds no separator.
pub open spec fn past_separators(s: Seq<char>, i: int) -> int
    decreases s.len() - i,
{
    if 0 <= i < s.len() && is_coord_separator(s[i]) {
        past_separators(s, i + 1)
    } else {
        i
    }
}

fn is_separator_char(c: char) -> (res: bool)
    ensures
        res == is_coord_separator(c),
{
    c == ',' || c == ' ' || c == '\t' || c == '\n' || c == '\r'
}

/// Skips commas and whitespace between coordinates, moving the read
/// position `pos` of `chars` forward.
pub fn skip_separators(chars: &Vec<char>, pos: &mut usize)
    requires
        *old(pos) <= chars.len(),
    ensures
        *final(pos) == past_separators(chars@, *old(pos) as int),
        *final(pos) <= chars.len(),
{
    while *pos < chars.len() && is_separator_char(chars[*pos])
        invariant
            *pos <= chars.len(),
            past_separators(chars@, *old(pos) as int) == past_separators(chars@, *pos as int),
        decreases chars.len() - *pos,
    {
        *pos = *pos + 1;
    }
}

} // verus!
