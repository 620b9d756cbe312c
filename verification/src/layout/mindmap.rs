//! Mindmap text handling: the lines a node or note is drawn with.
use vstd::prelude::*;

use crate::text::{
    chars_of, char_views, is_ws, lemma_trim_trimmed, lines, lines_chars, replace_all, replace_str,
    split, split_acc, split_str, string_views, strip_cr, trim, trim_each, trim_end, trim_start,
    trimmed_strings,
};

verus! {

/// Lines of a node label: the text split at literal `\n` sequences, each
/// trimmed.
pub open spec fn node_lines(text: Seq<char>) -> Seq<Seq<char>> {
    trim_each(split(text, "\\n"@))
}

/// Splits a node label into its trimmed lines.
pub fn split_text_lines(text: &str) -> (res: Vec<String>)
    ensures
        string_views(res@) == node_lines(text@),
{
    proof {
        reveal_strlit("\\n");
    }
    let v = chars_of(text);
    let parts = split_str(&v, "\\n");
    trimmed_strings(&parts)
}

/// Lines of a note's plain text: literal `\n` sequences become line
/// breaks, each line is trimmed, and a text without lines gives one empty
/// line.
pub open spec fn note_lines(plain: Seq<char>) -> Seq<Seq<char>> {
    let ls = trim_each(lines(replace_all(plain, "\\n"@, "\n"@)));
    if ls.len() == 0 {
        seq![Seq::empty()]
    } else {
        ls
    }
}

/// Lines of a note, given the note's text with its creole markup already
/// reduced to plain text.
pub fn plain_text_lines(plain: &str) -> (res: Vec<String>)
    ensures
        string_views(res@) == note_lines(plain@),
{
    proof {
        reveal_strlit("\\n");
    }
    let v = chars_of(plain);
    let normalized = replace_str(&v, "\\n", "\n");
    let ls = lines_chars(&normalized);
    let res = trimmed_strings(&ls);
    if res.len() == 0 {
        let mut one: Vec<String> = Vec::new();
        one.push(String::new());
        assert(string_views(one@) =~= seq![Seq::<char>::empty()]);
        one
    } else {
        res
    }
}

/// Every line of a node label is trimmed: none starts or ends with
/// whitespace.
pub proof fn lemma_node_lines_trimmed(text: Seq<char>, i: int)
    requires
        0 <= i < node_lines(text).len(),
    ensures
        node_lines(text)[i].len() > 0 ==> !crate::text::is_ws(node_lines(text)[i][0])
            && !crate::text::is_ws(node_lines(text)[i].last()),
{
    crate::text::lemma_trim_trimmed(split(text, "\\n"@)[i]);
}


/// `s` holds no line break.
pub open spec fn no_line_break(s: Seq<char>) -> bool {
    forall|j: int| 0 <= j < s.len() ==> s[j] != '\n'
}

/// `s` holds no literal backslash-n sequence.
pub open spec fn no_escaped_break(s: Seq<char>) -> bool {
    forall|j: int| 0 <= j < s.len() - 1 ==> !(#[trigger] s[j] == '\\' && s[j + 1] == 'n')
}

proof fn lemma_clean_take(s: Seq<char>, m: int)
    requires
        0 <= m <= s.len(),
        no_escaped_break(s),
    ensures
        no_escaped_break(s.take(m)),
{
    assert forall|j: int| 0 <= j < m - 1 implies !(#[trigger] s.take(m)[j] == '\\' && s.take(m)[j + 1] == 'n') by {
        assert(s.take(m)[j] == s[j] && s.take(m)[j + 1] == s[j + 1]);
    }
}

proof fn lemma_clean_skip(s: Seq<char>, m: int)
    requires
        0 <= m <= s.len(),
        no_escaped_break(s),
    ensures
        no_escaped_break(s.skip(m)),
        no_line_break(s) ==> no_line_break(s.skip(m)),
{
    assert forall|j: int| 0 <= j < s.skip(m).len() - 1 implies !(#[trigger] s.skip(m)[j] == '\\' && s.skip(m)[j + 1] == 'n') by {
        assert(s.skip(m)[j] == s[j + m] && s.skip(m)[j + 1] == s[j + m + 1]);
    }
    if no_line_break(s) {
        assert forall|j: int| 0 <= j < s.skip(m).len() implies s.skip(m)[j] != '\n' by {
            assert(s.skip(m)[j] == s[j + m]);
        }
    }
}

/// Replacing every literal backslash-n by a line break leaves none.
proof fn lemma_replaced_clean(s: Seq<char>)
    ensures
        no_escaped_break(replace_all(s, "\\n"@, "\n"@)),
    decreases s.len(),
{
    reveal_strlit("\\n");
    reveal_strlit("\n");
    let p = "\\n"@;
    let out = replace_all(s, p, "\n"@);
    if s.len() == 0 {
    } else if s.len() >= 2 && s.take(2) == p {
        let rest = replace_all(s.skip(2), p, "\n"@);
        lemma_replaced_clean(s.skip(2));
        assert(out == seq!['\n'] + rest);
        assert forall|j: int| 0 <= j < out.len() - 1 implies !(#[trigger] out[j] == '\\' && out[j + 1] == 'n') by {
            if j > 0 {
                assert(out[j] == rest[j - 1] && out[j + 1] == rest[j]);
            }
        }
    } else {
        let t = s.drop_first();
        let rest = replace_all(t, p, "\n"@);
        lemma_replaced_clean(t);
        assert(out == seq![s[0]] + rest);
        if s[0] == '\\' && rest.len() > 0 {
            if t.len() >= 2 && t.take(2) == p {
                assert(rest[0] == '\n');
            } else {
                assert(t.len() > 0);
                assert(rest[0] == t[0]);
                if t[0] == 'n' {
                    assert(s.take(2) =~= p);
                }
            }
        }
        assert forall|j: int| 0 <= j < out.len() - 1 implies !(#[trigger] out[j] == '\\' && out[j + 1] == 'n') by {
            if j > 0 {
                assert(out[j] == rest[j - 1] && out[j + 1] == rest[j]);
            }
        }
    }
}

/// The pieces of a text split at line breaks hold no line break, and hold
/// no literal backslash-n when the text holds none.
proof fn lemma_split_pieces_clean(s: Seq<char>, cur: Seq<char>, k: int)
    requires
        no_line_break(cur),
        no_escaped_break(cur + s),
        0 <= k < split_acc(s, seq!['\n'], cur).len(),
    ensures
        no_line_break(split_acc(s, seq!['\n'], cur)[k]),
        no_escaped_break(split_acc(s, seq!['\n'], cur)[k]),
    decreases s.len(),
{
    let p = seq!['\n'];
    if s.len() >= 1 && s.take(1) == p {
        lemma_clean_take(cur + s, cur.len() as int);
        assert((cur + s).take(cur.len() as int) =~= cur);
        if k > 0 {
            lemma_clean_skip(cur + s, (cur.len() + 1) as int);
            assert((cur + s).skip((cur.len() + 1) as int) =~= Seq::<char>::empty() + s.skip(1));
            lemma_split_pieces_clean(s.skip(1), Seq::empty(), k - 1);
        }
    } else if s.len() == 0 {
        assert(cur + s =~= cur);
    } else {
        assert(s.take(1) =~= seq![s[0]]);
        assert(cur.push(s[0]) + s.drop_first() =~= cur + s);
        lemma_split_pieces_clean(s.drop_first(), cur.push(s[0]), k);
    }
}

proof fn lemma_trim_keeps_clean(l: Seq<char>)
    requires
        no_line_break(l),
        no_escaped_break(l),
    ensures
        no_line_break(trim(l)),
        no_escaped_break(trim(l)),
{
    lemma_trim_start_keeps(l);
    lemma_trim_end_keeps(trim_start(l));
}

proof fn lemma_trim_start_keeps(l: Seq<char>)
    requires
        no_line_break(l),
        no_escaped_break(l),
    ensures
        no_line_break(trim_start(l)),
        no_escaped_break(trim_start(l)),
    decreases l.len(),
{
    if l.len() > 0 && is_ws(l[0]) {
        lemma_clean_skip(l, 1);
        lemma_trim_start_keeps(l.drop_first());
    }
}

proof fn lemma_trim_end_keeps(l: Seq<char>)
    requires
        no_line_break(l),
        no_escaped_break(l),
    ensures
        no_line_break(trim_end(l)),
        no_escaped_break(trim_end(l)),
    decreases l.len(),
{
    if l.len() > 0 && is_ws(l.last()) {
        lemma_clean_take(l, l.len() - 1);
        assert(l.take(l.len() - 1) =~= l.drop_last());
        lemma_trim_end_keeps(l.drop_last());
    }
}

/// A note always has at least one line, and each of its lines is trimmed
/// and holds neither a line break nor a literal backslash-n.
pub proof fn lemma_note_lines_clean(plain: Seq<char>, i: int)
    requires
        0 <= i < note_lines(plain).len(),
    ensures
        note_lines(plain).len() >= 1,
        trim(note_lines(plain)[i]) == note_lines(plain)[i],
        no_line_break(note_lines(plain)[i]),
        no_escaped_break(note_lines(plain)[i]),
{
    reveal_strlit("\\n");
    reveal_strlit("\n");
    let r = replace_all(plain, "\\n"@, "\n"@);
    let ls = trim_each(lines(r));
    let l = note_lines(plain)[i];
    if ls.len() == 0 {
        assert(l == Seq::<char>::empty());
    } else {
        let parts = split(r, seq!['\n']);
        let n = parts.len() as int;
        lemma_replaced_clean(plain);
        assert(Seq::<char>::empty() + r =~= r);
        crate::text::lemma_split_acc_len(r, seq!['\n'], Seq::empty());
        assert(ls.len() == lines(r).len());
        assert(i < n);
        lemma_split_pieces_clean(r, Seq::empty(), i);
        let piece = lines(r)[i];
        if i < n - 1 {
            let q = parts[i];
            if q.len() > 0 && q.last() == '\r' {
                lemma_clean_take(q, q.len() - 1);
                assert(q.take(q.len() - 1) =~= q.drop_last());
                assert forall|j: int| 0 <= j < q.drop_last().len() implies q.drop_last()[j] != '\n' by {
                    assert(q.drop_last()[j] == q[j]);
                }
            }
            assert(piece == strip_cr(q));
        }
        lemma_trim_keeps_clean(piece);
        assert(l == trim(piece));
        lemma_trim_trimmed(piece);
        if l.len() > 0 {
            assert(trim_start(l) == l);
            assert(trim_end(l) == l);
        }
    }
    assert(trim(l) == l);
}

} // verus!
