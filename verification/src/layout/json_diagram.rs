//! JSON-diagram boxes: the text a leaf value is shown with, and how many
//! boxes a nested value takes.
use vstd::prelude::*;

use crate::model::JsonValue;
use crate::text::{
    char_views, chars_of, find, find_chars, split, split_each, split_each_chars, split_str,
    string_views, strings_of,
};
use crate::NEWLINE_CHAR;

verus! {

/// Display text of a leaf value, and its separate lines when the text
/// holds literal `\n` sequences or hidden line breaks (empty otherwise).
pub open spec fn leaf_display(v: JsonValue) -> (Seq<char>, Seq<Seq<char>>) {
    match v {
        JsonValue::Bool(b) => if b {
            ("\u{2611} true"@, Seq::empty())
        } else {
            ("\u{2610} false"@, Seq::empty())
        },
        JsonValue::Null => ("null"@, Seq::empty()),
        JsonValue::Number(t) => (t@, Seq::empty()),
        JsonValue::Str(s) => if find(s@, "\\n"@) is Some || find(s@, seq![NEWLINE_CHAR]) is Some {
            (s@, split_each(split(s@, "\\n"@), seq![NEWLINE_CHAR]))
        } else {
            (s@, Seq::empty())
        },
    }
}

/// Text of a leaf value and its lines.
pub fn format_leaf_value(val: &JsonValue) -> (res: (String, Vec<String>))
    ensures
        res.0@ == leaf_display(*val).0,
        string_views(res.1@) == leaf_display(*val).1,
{
    match val {
        JsonValue::Bool(b) => {
            if *b {
                ("\u{2611} true".to_owned(), Vec::new())
            } else {
                ("\u{2610} false".to_owned(), Vec::new())
            }
        },
        JsonValue::Null => ("null".to_owned(), Vec::new()),
        JsonValue::Number(t) => (t.clone(), Vec::new()),
        JsonValue::Str(s) => {
            proof {
                reveal_strlit("\\n");
            }
            let v = chars_of(s.as_str());
            let esc = chars_of("\\n");
            let nl = vec![NEWLINE_CHAR];
            assert(nl@ == seq![NEWLINE_CHAR]);
            let has_esc = find_chars(&v, &esc).is_some();
            let has_nl = find_chars(&v, &nl).is_some();
            if has_esc || has_nl {
                let parts = split_str(&v, "\\n");
                let pieces = split_each_chars(&parts, &nl);
                (s.clone(), strings_of(&pieces))
            } else {
                (s.clone(), Vec::new())
            }
        },
    }
}


/// One row of a JSON box: its key, the lines of its value, and the box that
/// its value opens, if the value is an object or an array.
#[derive(Debug, Clone)]
pub struct BoxRowSpec {
    pub key: Option<String>,
    pub value_lines: Vec<String>,
    pub has_child: bool,
    pub child_spec_idx: Option<usize>,
}

/// The rows of one JSON box.
#[derive(Debug, Clone)]
pub struct BoxSpec {
    pub rows: Vec<BoxRowSpec>,
}

/// Boxes are listed parent first: a row opens only a box listed after its own.
pub open spec fn children_follow(specs: Seq<BoxSpec>) -> bool {
    forall|i: int, r: int|
        0 <= i < specs.len() && 0 <= r < specs[i].rows@.len() ==> (
        #[trigger] specs[i].rows@[r].child_spec_idx matches Some(c) ==> i < c < specs.len())
}

/// The box `idx` and the boxes under its rows from row `r` on.
pub open spec fn boxes_from(specs: Seq<BoxSpec>, idx: int, r: int) -> nat
    decreases specs.len() - idx, specs[idx].rows@.len() - r,
{
    if idx < 0 || idx >= specs.len() || r < 0 || r >= specs[idx].rows@.len() {
        1
    } else {
        boxes_from(specs, idx, r + 1) + match specs[idx].rows@[r].child_spec_idx {
            Some(c) => if idx < c < specs.len() {
                boxes_from(specs, c as int, 0)
            } else {
                0
            },
            None => 0,
        }
    }
}

/// Number of boxes in the subtree of box `idx`, itself included.
pub open spec fn subtree_boxes(specs: Seq<BoxSpec>, idx: int) -> nat {
    boxes_from(specs, idx, 0)
}

proof fn lemma_boxes_from_positive(specs: Seq<BoxSpec>, idx: int, r: int)
    ensures
        boxes_from(specs, idx, r) >= 1,
    decreases specs.len() - idx, specs[idx].rows@.len() - r,
{
    if !(idx < 0 || idx >= specs.len() || r < 0 || r >= specs[idx].rows@.len()) {
        lemma_boxes_from_positive(specs, idx, r + 1);
    }
}

/// Number of boxes in the subtree of box `spec_idx`, itself included.
pub fn count_subtree_boxes(spec_idx: usize, specs: &[BoxSpec]) -> (res: usize)
    requires
        spec_idx < specs.len(),
        children_follow(specs@),
        subtree_boxes(specs@, spec_idx as int) <= usize::MAX,
    ensures
        res == subtree_boxes(specs@, spec_idx as int),
    decreases specs.len() - spec_idx,
{
    let rows = &specs[spec_idx].rows;
    let mut count: usize = 1;
    let mut r: usize = 0;
    while r < rows.len()
        invariant
            spec_idx < specs.len(),
            children_follow(specs@),
            rows@ == specs@[spec_idx as int].rows@,
            r <= rows.len(),
            count >= 1,
            subtree_boxes(specs@, spec_idx as int) == (count - 1) + boxes_from(specs@, spec_idx as int, r as int),
            subtree_boxes(specs@, spec_idx as int) <= usize::MAX,
        decreases rows.len() - r,
    {
        proof {
            lemma_boxes_from_positive(specs@, spec_idx as int, r + 1);
        }
        if let Some(ci) = rows[r].child_spec_idx {
            assert(specs@[spec_idx as int].rows@[r as int].child_spec_idx == Some(ci));
            proof {
                lemma_boxes_from_positive(specs@, ci as int, 0);
            }
            let n = count_subtree_boxes(ci, specs);
            count = count + n;
        }
        r = r + 1;
    }
    count
}


proof fn lemma_boxes_from_child(specs: Seq<BoxSpec>, idx: int, r: int, q: int)
    requires
        children_follow(specs),
        0 <= idx < specs.len(),
        0 <= r <= q < specs[idx].rows@.len(),
        specs[idx].rows@[q].child_spec_idx is Some,
    ensures
        boxes_from(specs, idx, r) >= 1 + subtree_boxes(specs, specs[idx].rows@[q].child_spec_idx.unwrap() as int),
    decreases q - r,
{
    lemma_boxes_from_positive(specs, idx, r + 1);
    assert(specs[idx].rows@[r].child_spec_idx matches Some(c) ==> idx < c < specs.len());
    if r < q {
        lemma_boxes_from_child(specs, idx, r + 1, q);
    }
}

proof fn lemma_boxes_from_leaf(specs: Seq<BoxSpec>, idx: int, r: int)
    requires
        0 <= idx < specs.len(),
        0 <= r <= specs[idx].rows@.len(),
        forall|t: int| r <= t < specs[idx].rows@.len() ==> (#[trigger] specs[idx].rows@[t]).child_spec_idx is None,
    ensures
        boxes_from(specs, idx, r) == 1,
    decreases specs[idx].rows@.len() - r,
{
    if r < specs[idx].rows@.len() {
        lemma_boxes_from_leaf(specs, idx, r + 1);
    }
}

/// A box whose rows open no box counts itself alone; a box counts more
/// boxes than the subtree of any box one of its rows opens.
pub proof fn lemma_subtree_boxes_shape(specs: Seq<BoxSpec>, idx: int)
    requires
        children_follow(specs),
        0 <= idx < specs.len(),
    ensures
        (forall|t: int| 0 <= t < specs[idx].rows@.len() ==> (#[trigger] specs[idx].rows@[t]).child_spec_idx is None)
            ==> subtree_boxes(specs, idx) == 1,
        forall|q: int|
            0 <= q < specs[idx].rows@.len() && (#[trigger] specs[idx].rows@[q]).child_spec_idx is Some ==> subtree_boxes(
                specs,
                idx,
            ) >= 1 + subtree_boxes(specs, specs[idx].rows@[q].child_spec_idx.unwrap() as int),
{
    if forall|t: int| 0 <= t < specs[idx].rows@.len() ==> (#[trigger] specs[idx].rows@[t]).child_spec_idx is None {
        lemma_boxes_from_leaf(specs, idx, 0);
    }
    assert forall|q: int|
        0 <= q < specs[idx].rows@.len() && (#[trigger] specs[idx].rows@[q]).child_spec_idx is Some implies subtree_boxes(
            specs,
            idx,
        ) >= 1 + subtree_boxes(specs, specs[idx].rows@[q].child_spec_idx.unwrap() as int) by {
        lemma_boxes_from_child(specs, idx, 0, q);
    }
}

} // verus!
