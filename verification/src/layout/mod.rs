//! Class-diagram layout rules: identifiers, member text, hide/show rules
//! and the square arrangement of unlinked entities.
pub mod activity;
pub mod creole_prefix;
pub mod erd;
pub mod graphviz;
pub mod json_diagram;
pub mod sequence;
pub mod mindmap;
pub mod nwdiag;
pub mod sequence_teoz;

use vstd::prelude::*;

use crate::layout::graphviz::{EdgeView, LayoutEdge, RankDir, edge_view, edge_views};
use crate::name_table::NameTable;
use crate::model::{
    ClassDiagram, Group, Link, ClassHideShowRule, ClassPortion, ClassRuleTarget, Direction, Member, Stereotype, opt_view,
};
use crate::text::{
    chars_of, replace_all, replace_str, split, split_str, str_eq, string_of, append_chars,
};

verus! {

/// A name with the characters that DOT identifiers cannot hold replaced.
pub open spec fn sanitized(name: Seq<char>) -> Seq<char> {
    replace_all(
        replace_all(
            replace_all(replace_all(name, "<"@, "_LT_"@), ">"@, "_GT_"@),
            ","@,
            "_COMMA_"@,
        ),
        " "@,
        "_"@,
    )
}

proof fn lemma_replace_keeps_absent(s: Seq<char>, p: Seq<char>, r: Seq<char>, x: char)
    requires
        !s.contains(x),
        !r.contains(x),
    ensures
        !replace_all(s, p, r).contains(x),
    decreases s.len(),
{
    if p.len() == 0 || s.len() == 0 {
    } else if s.len() >= p.len() && s.take(p.len() as int) == p {
        assert forall|j: int| 0 <= j < s.skip(p.len() as int).len() implies s.skip(p.len() as int)[j] != x by {
            assert(s.skip(p.len() as int)[j] == s[j + p.len()]);
        }
        lemma_replace_keeps_absent(s.skip(p.len() as int), p, r, x);
        let t = replace_all(s.skip(p.len() as int), p, r);
        assert forall|j: int| 0 <= j < (r + t).len() implies (r + t)[j] != x by {
            if j >= r.len() {
                assert((r + t)[j] == t[j - r.len()]);
            }
        }
    } else {
        assert forall|j: int| 0 <= j < s.drop_first().len() implies s.drop_first()[j] != x by {
            assert(s.drop_first()[j] == s[j + 1]);
        }
        lemma_replace_keeps_absent(s.drop_first(), p, r, x);
        let t = replace_all(s.drop_first(), p, r);
        assert(s[0] != x);
        assert forall|j: int| 0 <= j < (seq![s[0]] + t).len() implies (seq![s[0]] + t)[j] != x by {
            if j >= 1 {
                assert((seq![s[0]] + t)[j] == t[j - 1]);
            }
        }
    }
}

proof fn lemma_replace_removes(s: Seq<char>, c: char, r: Seq<char>)
    requires
        !r.contains(c),
    ensures
        !replace_all(s, seq![c], r).contains(c),
    decreases s.len(),
{
    let p = seq![c];
    if s.len() == 0 {
    } else if s.take(1) == p {
        lemma_replace_removes(s.skip(1), c, r);
        let t = replace_all(s.skip(1), p, r);
        assert forall|j: int| 0 <= j < (r + t).len() implies (r + t)[j] != c by {
            if j >= r.len() {
                assert((r + t)[j] == t[j - r.len()]);
            }
        }
    } else {
        assert(s[0] != c) by {
            if s[0] == c {
                assert(s.take(1) =~= p);
            }
        }
        lemma_replace_removes(s.drop_first(), c, r);
        let t = replace_all(s.drop_first(), p, r);
        assert forall|j: int| 0 <= j < (seq![s[0]] + t).len() implies (seq![s[0]] + t)[j] != c by {
            if j >= 1 {
                assert((seq![s[0]] + t)[j] == t[j - 1]);
            }
        }
    }
}

/// Sanitised identifiers hold none of the characters that DOT
/// identifiers cannot: no `<`, `>`, `,` or space.
pub proof fn lemma_sanitized_is_dot_safe(name: Seq<char>)
    ensures
        !sanitized(name).contains('<'),
        !sanitized(name).contains('>'),
        !sanitized(name).contains(','),
        !sanitized(name).contains(' '),
{
    reveal_strlit("<");
    reveal_strlit(">");
    reveal_strlit(",");
    reveal_strlit(" ");
    reveal_strlit("_LT_");
    reveal_strlit("_GT_");
    reveal_strlit("_COMMA_");
    reveal_strlit("_");
    assert("<"@ =~= seq!['<']);
    assert(">"@ =~= seq!['>']);
    assert(","@ =~= seq![',']);
    assert(" "@ =~= seq![' ']);
    let s1 = replace_all(name, "<"@, "_LT_"@);
    let s2 = replace_all(s1, ">"@, "_GT_"@);
    let s3 = replace_all(s2, ","@, "_COMMA_"@);
    let s4 = replace_all(s3, " "@, "_"@);
    lemma_replace_removes(name, '<', "_LT_"@);
    lemma_replace_keeps_absent(s1, ">"@, "_GT_"@, '<');
    lemma_replace_keeps_absent(s2, ","@, "_COMMA_"@, '<');
    lemma_replace_keeps_absent(s3, " "@, "_"@, '<');
    lemma_replace_removes(s1, '>', "_GT_"@);
    lemma_replace_keeps_absent(s2, ","@, "_COMMA_"@, '>');
    lemma_replace_keeps_absent(s3, " "@, "_"@, '>');
    lemma_replace_removes(s2, ',', "_COMMA_"@);
    lemma_replace_keeps_absent(s3, " "@, "_"@, ',');
    lemma_replace_removes(s3, ' ', "_"@);
}

/// Replaces DOT-incompatible characters with safe identifiers.
pub fn sanitize_id(name: &str) -> (res: String)
    ensures
        res@ == sanitized(name@),
{
    proof {
        reveal_strlit("<");
        reveal_strlit(">");
        reveal_strlit(",");
        reveal_strlit(" ");
    }
    let v = chars_of(name);
    let v = replace_str(&v, "<", "_LT_");
    let v = replace_str(&v, ">", "_GT_");
    let v = replace_str(&v, ",", "_COMMA_");
    let v = replace_str(&v, " ", "_");
    string_of(&v)
}

/// The layout direction for a diagram direction.
pub open spec fn rankdir_of(dir: Direction) -> RankDir {
    match dir {
        Direction::TopToBottom => RankDir::TopToBottom,
        Direction::LeftToRight => RankDir::LeftToRight,
        Direction::BottomToTop => RankDir::BottomToTop,
        Direction::RightToLeft => RankDir::RightToLeft,
    }
}

/// Maps a diagram direction to a layout direction.
pub fn direction_to_rankdir(dir: &Direction) -> (res: RankDir)
    ensures
        res == rankdir_of(*dir),
{
    match dir {
        Direction::TopToBottom => RankDir::TopToBottom,
        Direction::LeftToRight => RankDir::LeftToRight,
        Direction::BottomToTop => RankDir::BottomToTop,
        Direction::RightToLeft => RankDir::RightToLeft,
    }
}

/// Display text of a member: methods (names ending in `)`) read
/// `name(): type`, fields read `name : type`.
pub open spec fn member_display(name: Seq<char>, return_type: Option<Seq<char>>) -> Seq<char> {
    match return_type {
        Some(t) => if name.len() > 0 && name.last() == ')' {
            name + ": "@ + t
        } else {
            name + " : "@ + t
        },
        None => name,
    }
}

/// Display text of a member.
pub fn member_text(m: &Member) -> (res: String)
    ensures
        res@ == member_display(m.name@, opt_view(m.return_type)),
{
    match &m.return_type {
        Some(t) => {
            let mut v = chars_of(m.name.as_str());
            let is_method = v.len() > 0 && v[v.len() - 1] == ')';
            let sep = if is_method {
                chars_of(": ")
            } else {
                chars_of(" : ")
            };
            append_chars(&mut v, &sep);
            let tv = chars_of(t.as_str());
            append_chars(&mut v, &tv);
            string_of(&v)
        },
        None => m.name.clone(),
    }
}

/// Number of visual lines of a member: its display text split at
/// literal `\n` sequences.
pub fn member_visual_lines(m: &Member) -> (res: usize)
    ensures
        res == split(member_display(m.name@, opt_view(m.return_type)), "\\n"@).len(),
{
    proof {
        reveal_strlit("\\n");
    }
    let text = member_text(m);
    let v = chars_of(text.as_str());
    let parts = split_str(&v, "\\n");
    parts.len()
}

/// Whether a rule addresses `portion` of the entity `name`.
pub open spec fn rule_hits_entity(rule: ClassHideShowRule, portion: ClassPortion, name: Seq<char>) -> bool {
    rule.portion == portion && match rule.target {
        ClassRuleTarget::Any => true,
        ClassRuleTarget::Entity(n) => n@ == name,
        ClassRuleTarget::Stereotype(_) => false,
    }
}

/// Visibility of `portion` of entity `name`: the last rule that addresses
/// it decides; with none it is shown.
pub open spec fn portion_shown(rules: Seq<ClassHideShowRule>, portion: ClassPortion, name: Seq<char>) -> bool
    decreases rules.len(),
{
    if rules.len() == 0 {
        true
    } else if rule_hits_entity(rules.last(), portion, name) {
        rules.last().show
    } else {
        portion_shown(rules.drop_last(), portion, name)
    }
}

/// The last rule that addresses `portion` of entity `name` (one for that
/// portion, aimed at any entity or at `name` itself) decides whether it is
/// shown, whatever rules come before it.
pub proof fn lemma_last_entity_rule_decides(
    rules: Seq<ClassHideShowRule>,
    portion: ClassPortion,
    name: Seq<char>,
    j: int,
)
    requires
        0 <= j < rules.len(),
        rules[j].portion == portion,
        rules[j].target is Any || (rules[j].target matches ClassRuleTarget::Entity(n) && n@ == name),
        forall|t: int|
            j < t < rules.len() ==> !(#[trigger] rules[t].portion == portion && (rules[t].target is Any || (
            rules[t].target matches ClassRuleTarget::Entity(n) && n@ == name))),
    ensures
        portion_shown(rules, portion, name) == rules[j].show,
    decreases rules.len(),
{
    if j < rules.len() - 1 {
        let d = rules.drop_last();
        assert(rules[rules.len() - 1].portion == portion ==> !(rules.last().target is Any || (
        rules.last().target matches ClassRuleTarget::Entity(n) && n@ == name)));
        assert forall|t: int| j < t < d.len() implies !(#[trigger] d[t].portion == portion && (d[t].target is Any || (
        d[t].target matches ClassRuleTarget::Entity(n) && n@ == name))) by {
            assert(d[t] == rules[t]);
        }
        lemma_last_entity_rule_decides(d, portion, name, j);
    }
}

/// With no rule addressing `portion` of entity `name`, it is shown.
pub proof fn lemma_entity_shown_without_rules(rules: Seq<ClassHideShowRule>, portion: ClassPortion, name: Seq<char>)
    requires
        forall|t: int|
            0 <= t < rules.len() ==> !(#[trigger] rules[t].portion == portion && (rules[t].target is Any || (
            rules[t].target matches ClassRuleTarget::Entity(n) && n@ == name))),
    ensures
        portion_shown(rules, portion, name),
    decreases rules.len(),
{
    if rules.len() > 0 {
        let d = rules.drop_last();
        assert(rules[rules.len() - 1] == rules.last());
        assert forall|t: int| 0 <= t < d.len() implies !(#[trigger] d[t].portion == portion && (d[t].target is Any || (
        d[t].target matches ClassRuleTarget::Entity(n) && n@ == name))) by {
            assert(d[t] == rules[t]);
        }
        lemma_entity_shown_without_rules(d, portion, name);
    }
}

/// Whether `portion` of the entity `entity_name` is shown.
pub fn show_portion(rules: &[ClassHideShowRule], portion: ClassPortion, entity_name: &str) -> (res: bool)
    ensures
        res == portion_shown(rules@, portion, entity_name@),
{
    let mut result = true;
    for i in 0..rules.len()
        invariant
            result == portion_shown(rules@.take(i as int), portion, entity_name@),
    {
        assert(rules@.take(i + 1).drop_last() == rules@.take(i as int));
        let rule = &rules[i];
        if rule.portion == portion {
            match &rule.target {
                ClassRuleTarget::Any => {
                    result = rule.show;
                },
                ClassRuleTarget::Entity(name) => {
                    if str_eq(name.as_str(), entity_name) {
                        result = rule.show;
                    }
                },
                ClassRuleTarget::Stereotype(_) => {},
            }
        }
    }
    assert(rules@.take(rules.len() as int) == rules@);
    result
}

/// Whether a rule addresses the stereotype `label`.
pub open spec fn rule_hits_stereotype(rule: ClassHideShowRule, label: Seq<char>) -> bool {
    rule.portion == ClassPortion::Stereotype && match rule.target {
        ClassRuleTarget::Any => true,
        ClassRuleTarget::Stereotype(n) => n@ == label,
        ClassRuleTarget::Entity(_) => false,
    }
}

/// Visibility of the stereotype `label`: the last rule that addresses it
/// decides; with none it is shown.
pub open spec fn stereotype_shown(rules: Seq<ClassHideShowRule>, label: Seq<char>) -> bool
    decreases rules.len(),
{
    if rules.len() == 0 {
        true
    } else if rule_hits_stereotype(rules.last(), label) {
        rules.last().show
    } else {
        stereotype_shown(rules.drop_last(), label)
    }
}

/// The last stereotype rule aimed at any stereotype or at `label` itself
/// decides whether `label` is shown, whatever rules come before it.
pub proof fn lemma_last_stereotype_rule_decides(rules: Seq<ClassHideShowRule>, label: Seq<char>, j: int)
    requires
        0 <= j < rules.len(),
        rules[j].portion == ClassPortion::Stereotype,
        rules[j].target is Any || (rules[j].target matches ClassRuleTarget::Stereotype(n) && n@ == label),
        forall|t: int|
            j < t < rules.len() ==> !(#[trigger] rules[t].portion == ClassPortion::Stereotype && (rules[t].target is Any
                || (rules[t].target matches ClassRuleTarget::Stereotype(n) && n@ == label))),
    ensures
        stereotype_shown(rules, label) == rules[j].show,
    decreases rules.len(),
{
    if j < rules.len() - 1 {
        let d = rules.drop_last();
        assert(rules[rules.len() - 1] == rules.last());
        assert forall|t: int| j < t < d.len() implies !(#[trigger] d[t].portion == ClassPortion::Stereotype && (
        d[t].target is Any || (d[t].target matches ClassRuleTarget::Stereotype(n) && n@ == label))) by {
            assert(d[t] == rules[t]);
        }
        lemma_last_stereotype_rule_decides(d, label, j);
    }
}

/// With no rule addressing the stereotype `label`, it is shown.
pub proof fn lemma_stereotype_shown_without_rules(rules: Seq<ClassHideShowRule>, label: Seq<char>)
    requires
        forall|t: int|
            0 <= t < rules.len() ==> !(#[trigger] rules[t].portion == ClassPortion::Stereotype && (rules[t].target is Any
                || (rules[t].target matches ClassRuleTarget::Stereotype(n) && n@ == label))),
    ensures
        stereotype_shown(rules, label),
    decreases rules.len(),
{
    if rules.len() > 0 {
        let d = rules.drop_last();
        assert(rules[rules.len() - 1] == rules.last());
        assert forall|t: int| 0 <= t < d.len() implies !(#[trigger] d[t].portion == ClassPortion::Stereotype && (
        d[t].target is Any || (d[t].target matches ClassRuleTarget::Stereotype(n) && n@ == label))) by {
            assert(d[t] == rules[t]);
        }
        lemma_stereotype_shown_without_rules(d, label);
    }
}

/// Whether the stereotype `label` is shown.
pub fn stereotype_label_visible(rules: &[ClassHideShowRule], label: &str) -> (res: bool)
    ensures
        res == stereotype_shown(rules@, label@),
{
    let mut result = true;
    for i in 0..rules.len()
        invariant
            result == stereotype_shown(rules@.take(i as int), label@),
    {
        assert(rules@.take(i + 1).drop_last() == rules@.take(i as int));
        let rule = &rules[i];
        if rule.portion == ClassPortion::Stereotype {
            match &rule.target {
                ClassRuleTarget::Any => {
                    result = rule.show;
                },
                ClassRuleTarget::Stereotype(name) => {
                    if str_eq(name.as_str(), label) {
                        result = rule.show;
                    }
                },
                ClassRuleTarget::Entity(_) => {},
            }
        }
    }
    assert(rules@.take(rules.len() as int) == rules@);
    result
}

/// Labels of the stereotypes that the rules leave visible, in order.
pub open spec fn visible_labels(rules: Seq<ClassHideShowRule>, sts: Seq<Stereotype>) -> Seq<Seq<char>>
    decreases sts.len(),
{
    if sts.len() == 0 {
        Seq::empty()
    } else {
        let prev = visible_labels(rules, sts.drop_last());
        let label = sts.last().0@;
        if stereotype_shown(rules, label) {
            prev.push(label)
        } else {
            prev
        }
    }
}

/// Labels of the visible stereotypes.
pub fn visible_stereotype_labels(rules: &[ClassHideShowRule], stereotypes: &[Stereotype]) -> (res: Vec<String>)
    ensures
        crate::text::string_views(res@) == visible_labels(rules@, stereotypes@),
{
    let mut res: Vec<String> = Vec::new();
    for i in 0..stereotypes.len()
        invariant
            crate::text::string_views(res@) == visible_labels(rules@, stereotypes@.take(i as int)),
    {
        assert(stereotypes@.take(i + 1).drop_last() == stereotypes@.take(i as int));
        let label = stereotypes[i].0.clone();
        if stereotype_label_visible(rules, label.as_str()) {
            res.push(label);
        }
        assert(crate::text::string_views(res@) == visible_labels(rules@, stereotypes@.take(i + 1)));
    }
    assert(stereotypes@.take(stereotypes.len() as int) == stereotypes@);
    res
}


/// Number of entities per row of a square arrangement of `size`
/// entities: the least `r` with `r * r >= size`.
pub open spec fn is_square_branch(size: int, r: int) -> bool {
    r >= 0 && r * r >= size && (r == 0 || (r - 1) * (r - 1) < size)
}

/// Row length of the square arrangement of `size` entities.
pub fn compute_square_branch(size: usize) -> (res: usize)
    ensures
        is_square_branch(size as int, res as int),
{
    let mut r: usize = 0;
    while (r as u128) * (r as u128) < size as u128
        invariant
            r <= size,
            r == 0 || (r - 1) * (r - 1) < size,
            r * r <= 0xffff_ffff_ffff_fffe_0000_0000_0000_0001,
        decreases size - r,
    {
        assert(r < size) by (nonlinear_arith)
            requires
                r * r < size,
        ;
        r = r + 1;
        proof {
            vstd::arithmetic::mul::lemma_mul_upper_bound(
                r as int,
                0xffff_ffff_ffff_ffff,
                r as int,
                0xffff_ffff_ffff_ffff,
            );
            assert(0xffff_ffff_ffff_ffffint * 0xffff_ffff_ffff_ffffint == 0xffff_ffff_ffff_fffe_0000_0000_0000_0001int);
        }
    }
    assert(r * r >= size);
    r
}

/// Identifier of the node drawn for entity `name`.
pub open spec fn node_id(table: Map<Seq<char>, String>, name: Seq<char>) -> Seq<char> {
    if table.contains_key(name) {
        table[name]@
    } else {
        sanitized(name)
    }
}

/// Edge `i` (from 1) of the square arrangement of the nodes `ids` in rows
/// of `branch`: the first node of a row hangs one rank below the first
/// node of the row before, the others sit on the rank of their left
/// neighbour.
pub open spec fn square_edge(ids: Seq<Seq<char>>, branch: int, i: int) -> EdgeView {
    if i % branch == 0 {
        (ids[i - branch], ids[i], None, 1u32, true)
    } else {
        (ids[i - 1], ids[i], None, 0u32, true)
    }
}

/// Invisible edges that arrange the named entities in a square: none for
/// fewer than three entities.
pub open spec fn square_edges(names: Seq<Seq<char>>, table: Map<Seq<char>, String>) -> Seq<EdgeView> {
    let n = names.len() as int;
    if n < 3 {
        Seq::empty()
    } else {
        let ids = names.map_values(|x: Seq<char>| node_id(table, x));
        let branch = choose|r: int| is_square_branch(n, r);
        Seq::new((n - 1) as nat, |k: int| square_edge(ids, branch, k + 1))
    }
}

proof fn lemma_square_branch_unique(n: int, r: int, s: int)
    requires
        is_square_branch(n, r),
        is_square_branch(n, s),
    ensures
        r == s,
{
    if r < s {
        assert(r * r <= (s - 1) * (s - 1)) by (nonlinear_arith)
            requires
                0 <= r <= s - 1,
        ;
    } else if s < r {
        assert(s * s <= (r - 1) * (r - 1)) by (nonlinear_arith)
            requires
                0 <= s <= r - 1,
        ;
    }
}

proof fn lemma_offset_mod(head: int, b: int, d: int)
    requires
        b > 0,
        head >= 0,
        head % b == 0,
        0 <= d < b,
    ensures
        (head + d) % b == d,
        (head + b) % b == 0,
{
    vstd::arithmetic::div_mod::lemma_fundamental_div_mod(head, b);
    let q = head / b;
    assert(head == q * b) by (nonlinear_arith)
        requires
            head == b * q + 0,
    ;
    vstd::arithmetic::div_mod::lemma_fundamental_div_mod_converse(head + d, b, q, d);
    assert(head + b == (q + 1) * b) by (nonlinear_arith)
        requires
            head == q * b,
    ;
    vstd::arithmetic::div_mod::lemma_fundamental_div_mod_converse(head + b, b, q + 1, 0);
}

/// Id of the node of an entity: the table's id, or the sanitised name.
fn lookup_id(name_to_id: &NameTable<String>, name: &str) -> (res: String)
    ensures
        res@ == node_id(name_to_id@, name@),
{
    match name_to_id.get(name) {
        Some(id) => id.clone(),
        None => sanitize_id(name),
    }
}

/// Invisible edges that arrange unlinked entities in a square grid.
pub fn square_edges_for_entities(entity_names: &[&str], name_to_id: &NameTable<String>) -> (res: Vec<LayoutEdge>)
    ensures
        edge_views(res@) == square_edges(crate::layout::activity::str_views(entity_names@), name_to_id@),
{
    let ghost names = crate::layout::activity::str_views(entity_names@);
    if entity_names.len() < 3 {
        let res: Vec<LayoutEdge> = Vec::new();
        assert(edge_views(res@) =~= square_edges(names, name_to_id@));
        return res;
    }
    let n = entity_names.len();
    let branch = compute_square_branch(n);
    proof {
        let b = choose|r: int| is_square_branch(n as int, r);
        lemma_square_branch_unique(n as int, b, branch as int);
        assert(branch >= 2) by (nonlinear_arith)
            requires
                branch * branch >= n,
                n >= 3,
        ;
    }
    let mut ids: Vec<String> = Vec::new();
    for k in 0..n
        invariant
            n == entity_names.len(),
            names == crate::layout::activity::str_views(entity_names@),
            ids.len() == k,
            forall|j: int| 0 <= j < k ==> #[trigger] ids@[j]@ == node_id(name_to_id@, names[j]),
    {
        ids.push(lookup_id(name_to_id, entity_names[k]));
    }
    let ghost idv = names.map_values(|x: Seq<char>| node_id(name_to_id@, x));
    let mut result: Vec<LayoutEdge> = Vec::new();
    let mut head_branch: usize = 0;
    let mut i: usize = 1;
    while i < n
        invariant
            n == ids.len(),
            n == names.len(),
            branch >= 2,
            1 <= i <= n,
            forall|j: int| 0 <= j < n ==> #[trigger] ids@[j]@ == idv[j],
            idv == names.map_values(|x: Seq<char>| node_id(name_to_id@, x)),
            head_branch % branch == 0,
            head_branch <= i - 1 < head_branch + branch,
            result.len() == i - 1,
            forall|k: int| 0 <= k < i - 1 ==> #[trigger] edge_views(result@)[k] == square_edge(idv, branch as int, k + 1),
        decreases n - i,
    {
        let dist = i - head_branch;
        let ghost old_result = result@;
        if dist == branch {
            proof {
                lemma_offset_mod(head_branch as int, branch as int, 0);
            }
            result.push(LayoutEdge {
                from: ids[head_branch].clone(),
                to: ids[i].clone(),
                label: None,
                minlen: 1,
                invisible: true,
            });
            head_branch = i;
        } else {
            proof {
                lemma_offset_mod(head_branch as int, branch as int, dist as int);
            }
            result.push(LayoutEdge {
                from: ids[i - 1].clone(),
                to: ids[i].clone(),
                label: None,
                minlen: 0,
                invisible: true,
            });
        }
        assert(edge_views(result@) =~= edge_views(old_result).push(square_edge(idv, branch as int, i as int)));
        i = i + 1;
    }
    assert(edge_views(result@) =~= square_edges(names, name_to_id@));
    result
}


/// `x` is an end of some link.
pub open spec fn is_linked(links: Seq<Link>, x: Seq<char>) -> bool {
    exists|k: int| 0 <= k < links.len() && (links[k].from@ == x || links[k].to@ == x)
}

/// `x` belongs to some group.
pub open spec fn is_grouped(groups: Seq<Group>, x: Seq<char>) -> bool {
    exists|g: int, e: int|
        0 <= g < groups.len() && 0 <= e < groups[g].entities.len() && (#[trigger] groups[g].entities@[e])@ == x
}

/// Names of entities outside every link and group, in order.
pub open spec fn root_standalones(cd: ClassDiagram, ents: Seq<crate::model::Entity>) -> Seq<Seq<char>>
    decreases ents.len(),
{
    if ents.len() == 0 {
        Seq::empty()
    } else {
        let prev = root_standalones(cd, ents.drop_last());
        let x = ents.last().name@;
        if !is_linked(cd.links@, x) && !is_grouped(cd.groups@, x) {
            prev.push(x)
        } else {
            prev
        }
    }
}

/// Names of a group's entities outside every link, in order.
pub open spec fn group_standalones(links: Seq<Link>, members: Seq<String>) -> Seq<Seq<char>>
    decreases members.len(),
{
    if members.len() == 0 {
        Seq::empty()
    } else {
        let prev = group_standalones(links, members.drop_last());
        let x = members.last()@;
        if !is_linked(links, x) {
            prev.push(x)
        } else {
            prev
        }
    }
}

/// Square-arrangement edges of the unlinked entities of each group,
/// group after group.
pub open spec fn group_square_edges(links: Seq<Link>, groups: Seq<Group>, table: Map<Seq<char>, String>) -> Seq<EdgeView>
    decreases groups.len(),
{
    if groups.len() == 0 {
        Seq::empty()
    } else {
        group_square_edges(links, groups.drop_last(), table) + square_edges(
            group_standalones(links, groups.last().entities@),
            table,
        )
    }
}

/// Square-arrangement edges of a class diagram: those of the unlinked
/// entities outside groups, then those of each group.
pub open spec fn standalone_square_edges(cd: ClassDiagram, table: Map<Seq<char>, String>) -> Seq<EdgeView> {
    square_edges(root_standalones(cd, cd.entities@), table) + group_square_edges(
        cd.links@,
        cd.groups@,
        table,
    )
}

fn linked(links: &Vec<Link>, x: &str) -> (res: bool)
    ensures
        res == is_linked(links@, x@),
{
    for k in 0..links.len()
        invariant
            forall|j: int| 0 <= j < k ==> !(links@[j].from@ == x@ || links@[j].to@ == x@),
    {
        if str_eq(links[k].from.as_str(), x) || str_eq(links[k].to.as_str(), x) {
            return true;
        }
    }
    false
}

fn grouped(groups: &Vec<Group>, x: &str) -> (res: bool)
    ensures
        res == is_grouped(groups@, x@),
{
    for g in 0..groups.len()
        invariant
            forall|gg: int, e: int|
                0 <= gg < g && 0 <= e < groups@[gg].entities.len() ==> groups@[gg].entities@[e]@
                    != x@,
    {
        let members = &groups[g].entities;
        for e in 0..members.len()
            invariant
                g < groups.len(),
                members == groups@[g as int].entities,
                forall|gg: int, ee: int|
                    0 <= gg < g && 0 <= ee < groups@[gg].entities.len()
                        ==> groups@[gg].entities@[ee]@ != x@,
                forall|ee: int| 0 <= ee < e ==> members@[ee]@ != x@,
        {
            if str_eq(members[e].as_str(), x) {
                assert(groups@[g as int].entities@[e as int]@ == x@);
                assert(is_grouped(groups@, x@));
                return true;
            }
        }
    }
    false
}

/// Invisible edges that arrange the entities without links in squares:
/// first those outside groups, then those of each group.
pub fn collect_standalone_square_edges(cd: &ClassDiagram, name_to_id: &NameTable<String>) -> (res: Vec<LayoutEdge>)
    ensures
        edge_views(res@) == standalone_square_edges(*cd, name_to_id@),
{
    let mut roots: Vec<&str> = Vec::new();
    for k in 0..cd.entities.len()
        invariant
            crate::layout::activity::str_views(roots@) == root_standalones(*cd, cd.entities@.take(k as int)),
    {
        assert(cd.entities@.take(k + 1).drop_last() =~= cd.entities@.take(k as int));
        let name = cd.entities[k].name.as_str();
        let ghost before = roots@;
        if !linked(&cd.links, name) && !grouped(&cd.groups, name) {
            roots.push(name);
            assert(crate::layout::activity::str_views(roots@) =~= crate::layout::activity::str_views(before).push(name@));
        }
    }
    assert(cd.entities@.take(cd.entities.len() as int) =~= cd.entities@);
    let mut result = square_edges_for_entities(roots.as_slice(), name_to_id);
    assert(edge_views(result@) =~= square_edges(root_standalones(*cd, cd.entities@), name_to_id@) + group_square_edges(cd.links@, cd.groups@.take(0), name_to_id@));
    for g in 0..cd.groups.len()
        invariant
            edge_views(result@) == square_edges(root_standalones(*cd, cd.entities@), name_to_id@) + group_square_edges(cd.links@, cd.groups@.take(g as int), name_to_id@),
    {
        assert(cd.groups@.take(g + 1).drop_last() =~= cd.groups@.take(g as int));
        let members = &cd.groups[g].entities;
        let mut names: Vec<&str> = Vec::new();
        for e in 0..members.len()
            invariant
                g < cd.groups.len(),
                members == cd.groups@[g as int].entities,
                crate::layout::activity::str_views(names@) == group_standalones(cd.links@, members@.take(e as int)),
        {
            assert(members@.take(e + 1).drop_last() =~= members@.take(e as int));
            let name = members[e].as_str();
            let ghost before = names@;
            if !linked(&cd.links, name) {
                names.push(name);
                assert(crate::layout::activity::str_views(names@) =~= crate::layout::activity::str_views(before).push(name@));
            }
        }
        assert(members@.take(members.len() as int) =~= members@);
        let mut edges = square_edges_for_entities(names.as_slice(), name_to_id);
        let ghost before = result@;
        result.append(&mut edges);
        assert(edge_views(result@) =~= edge_views(before) + square_edges(group_standalones(cd.links@, members@), name_to_id@));
    }
    assert(cd.groups@.take(cd.groups.len() as int) =~= cd.groups@);
    result
}

/// Side of its target entity on which a class-diagram note is placed.
#[derive(Debug, Clone, Copy, PartialEq, Eq, Structural)]
pub enum NoteSide {
    Right,
    Left,
    Top,
    Bottom,
}

/// Side named by a note's position keyword; an unknown keyword places
/// the note on the right.
pub open spec fn note_side_of(position: Seq<char>) -> NoteSide {
    if position == "left"@ {
        NoteSide::Left
    } else if position == "top"@ {
        NoteSide::Top
    } else if position == "bottom"@ {
        NoteSide::Bottom
    } else {
        NoteSide::Right
    }
}

/// The side on which a note with the position keyword `position` is
/// placed next to its entity.
pub fn note_side(position: &str) -> (res: NoteSide)
    ensures
        res == note_side_of(position@),
{
    if str_eq(position, "left") {
        NoteSide::Left
    } else if str_eq(position, "top") {
        NoteSide::Top
    } else if str_eq(position, "bottom") {
        NoteSide::Bottom
    } else {
        NoteSide::Right
    }
}

/// Identifier of the node that a note attached to `target` points at.
pub fn note_target_id(target: &Option<String>, name_to_id: &NameTable<String>) -> (res: Option<String>)
    ensures
        match *target {
            Some(t) => res matches Some(id) && id@ == node_id(name_to_id@, t@),
            None => res is None,
        },
{
    match target {
        Some(t) => Some(lookup_id(name_to_id, t.as_str())),
        None => None,
    }
}


/// Edge a class-diagram link becomes: its ends by node id, its label, and a
/// minimum rank distance one less than its arrow's length (a one-dash
/// arrow keeps both ends on one rank).
pub open spec fn link_edge(link: Link, table: Map<Seq<char>, String>) -> EdgeView {
    (
        node_id(table, link.from@),
        node_id(table, link.to@),
        opt_view(link.label),
        #[verifier::truncate] ((if link.arrow_len >= 1 { (link.arrow_len - 1) as usize } else { 0usize }) as u32),
        false,
    )
}

/// Edges of a class diagram's graph: one per link, in order, then the
/// invisible edges that arrange the unlinked entities.
pub open spec fn class_edges(cd: ClassDiagram, table: Map<Seq<char>, String>) -> Seq<EdgeView> {
    cd.links@.map_values(|l: Link| link_edge(l, table)) + standalone_square_edges(cd, table)
}

/// Builds the edges of a class diagram's graph.
pub fn class_graph_edges(cd: &ClassDiagram, name_to_id: &NameTable<String>) -> (res: Vec<LayoutEdge>)
    ensures
        edge_views(res@) == class_edges(*cd, name_to_id@),
{
    let mut edges: Vec<LayoutEdge> = Vec::new();
    for k in 0..cd.links.len()
        invariant
            edge_views(edges@) == cd.links@.take(k as int).map_values(|l: Link| link_edge(l, name_to_id@)),
    {
        let link = &cd.links[k];
        let minlen: usize = if link.arrow_len >= 1 { link.arrow_len - 1 } else { 0 };
        let edge = LayoutEdge {
            from: lookup_id(name_to_id, link.from.as_str()),
            to: lookup_id(name_to_id, link.to.as_str()),
            label: link.label.clone(),
            minlen: #[verifier::truncate] (minlen as u32),
            invisible: false,
        };
        assert(edge_view(edge) == link_edge(cd.links@[k as int], name_to_id@));
        let ghost prev = edges@;
        edges.push(edge);
        assert(edge_views(edges@) =~= edge_views(prev).push(edge_view(edge)));
        assert(cd.links@.take(k + 1) =~= cd.links@.take(k as int).push(cd.links@[k as int]));
        assert(edge_views(edges@) =~= cd.links@.take(k + 1).map_values(|l: Link| link_edge(l, name_to_id@)));
    }
    assert(cd.links@.take(cd.links.len() as int) =~= cd.links@);
    let mut square = collect_standalone_square_edges(cd, name_to_id);
    let ghost before = edges@;
    let ghost sq = square@;
    edges.append(&mut square);
    assert(edge_views(edges@) =~= edge_views(before) + edge_views(sq));
    edges
}


/// Layout direction of a class diagram's graph: the diagram's direction
/// when it writes one out, top to bottom otherwise (arrow lengths then
/// place the ranks).
pub fn class_rankdir(cd: &ClassDiagram) -> (res: RankDir)
    ensures
        res == (if cd.direction_explicit {
            rankdir_of(cd.direction)
        } else {
            RankDir::TopToBottom
        }),
{
    if cd.direction_explicit {
        direction_to_rankdir(&cd.direction)
    } else {
        RankDir::TopToBottom
    }
}

/// Names of a class diagram's entities.
pub open spec fn entity_names(cd: ClassDiagram) -> Seq<Seq<char>> {
    cd.entities@.map_values(|e: crate::model::Entity| e.name@)
}

/// Node ids of a class diagram's entities: each entity's name maps to its
/// sanitised form.
pub fn class_entity_ids(cd: &ClassDiagram) -> (res: NameTable<String>)
    ensures
        res@.dom() == entity_names(*cd).to_set(),
        forall|n: Seq<char>| #[trigger] res@.contains_key(n) ==> res@[n]@ == sanitized(n),
{
    let mut table: NameTable<String> = NameTable::new();
    for k in 0..cd.entities.len()
        invariant
            table@.dom() == entity_names(*cd).take(k as int).to_set(),
            forall|n: Seq<char>| #[trigger] table@.contains_key(n) ==> table@[n]@ == sanitized(n),
    {
        let name = &cd.entities[k].name;
        let id = sanitize_id(name.as_str());
        table.insert(name.clone(), id);
        let ghost s0 = entity_names(*cd).take(k as int);
        let ghost s1 = entity_names(*cd).take(k + 1);
        assert(s1 =~= s0.push(name@));
        assert forall|x: Seq<char>| s1.contains(x) <==> (s0.contains(x) || x == name@) by {
            if s0.contains(x) {
                let i = choose|i: int| 0 <= i < s0.len() && s0[i] == x;
                assert(s1[i] == x);
            }
            if x == name@ {
                assert(s1[k as int] == x);
            }
            if s1.contains(x) && x != name@ {
                let i = choose|i: int| 0 <= i < s1.len() && s1[i] == x;
                assert(i < k);
                assert(s0[i] == x);
            }
        }
        assert(table@.dom() =~= s1.to_set());
    }
    assert(entity_names(*cd).take(cd.entities.len() as int) =~= entity_names(*cd));
    table
}


/// With a table that maps names to their sanitised forms, every name, in
/// the table or not, gets its sanitised form as node id: links and
/// entities agree on ids.
pub proof fn lemma_sanitized_table_ids(table: Map<Seq<char>, String>, n: Seq<char>)
    requires
        forall|m: Seq<char>| #[trigger] table.contains_key(m) ==> table[m]@ == sanitized(m),
    ensures
        node_id(table, n) == sanitized(n),
{
}


/// A name without `<`, `>`, `,` or space is its own id: sanitising it
/// changes nothing.
pub proof fn lemma_plain_name_kept(name: Seq<char>)
    requires
        !name.contains('<'),
        !name.contains('>'),
        !name.contains(','),
        !name.contains(' '),
    ensures
        sanitized(name) == name,
{
    reveal_strlit("<");
    reveal_strlit(">");
    reveal_strlit(",");
    reveal_strlit(" ");
    assert("<"@ =~= seq!['<']);
    assert(">"@ =~= seq!['>']);
    assert(","@ =~= seq![',']);
    assert(" "@ =~= seq![' ']);
    crate::text::lemma_replace_absent(name, "<"@, "_LT_"@);
    crate::text::lemma_replace_absent(name, ">"@, "_GT_"@);
    crate::text::lemma_replace_absent(name, ","@, "_COMMA_"@);
    crate::text::lemma_replace_absent(name, " "@, "_"@);
}


/// Number of non-overlapping occurrences of the non-empty `p` in `s`,
/// scanned from the left (`str::matches(..).count()`).
pub open spec fn match_count(s: Seq<char>, p: Seq<char>) -> nat
    decreases s.len(),
{
    if p.len() == 0 || s.len() == 0 {
        0
    } else if s.len() >= p.len() && s.take(p.len() as int) == p {
        1 + match_count(s.skip(p.len() as int), p)
    } else {
        match_count(s.drop_first(), p)
    }
}

proof fn lemma_split_acc_count(s: Seq<char>, p: Seq<char>, cur: Seq<char>)
    requires
        p.len() > 0,
    ensures
        crate::text::split_acc(s, p, cur).len() == match_count(s, p) + 1,
    decreases s.len(),
{
    if s.len() >= p.len() && s.take(p.len() as int) == p {
        lemma_split_acc_count(s.skip(p.len() as int), p, Seq::empty());
    } else if s.len() > 0 {
        lemma_split_acc_count(s.drop_first(), p, cur.push(s[0]));
    }
}

/// A member takes one visual line more than its display text holds literal
/// `\n` sequences; so at least one.
pub proof fn lemma_member_lines_count(name: Seq<char>, return_type: Option<Seq<char>>)
    ensures
        split(member_display(name, return_type), "\\n"@).len() == match_count(member_display(name, return_type), "\\n"@)
            + 1,
        split(member_display(name, return_type), "\\n"@).len() >= 1,
{
    reveal_strlit("\\n");
    lemma_split_acc_count(member_display(name, return_type), "\\n"@, Seq::empty());
}


proof fn lemma_replace_one_concat(a: Seq<char>, b: Seq<char>, x: char, r: Seq<char>)
    ensures
        replace_all(a + b, seq![x], r) == replace_all(a, seq![x], r) + replace_all(b, seq![x], r),
    decreases a.len(),
{
    if a.len() == 0 {
        assert(a + b =~= b);
        assert(Seq::<char>::empty() + replace_all(b, seq![x], r) =~= replace_all(b, seq![x], r));
    } else {
        let ab = a + b;
        assert(ab.take(1) =~= seq![a[0]]);
        assert(a.take(1) =~= seq![a[0]]);
        assert(ab.skip(1) =~= a.skip(1) + b);
        assert(ab.drop_first() =~= a.drop_first() + b);
        assert(a.skip(1) =~= a.drop_first());
        lemma_replace_one_concat(a.drop_first(), b, x, r);
        if a[0] == x {
            assert(replace_all(ab, seq![x], r) == r + replace_all(ab.skip(1), seq![x], r));
            assert(replace_all(a, seq![x], r) == r + replace_all(a.skip(1), seq![x], r));
            assert(r + (replace_all(a.drop_first(), seq![x], r) + replace_all(b, seq![x], r)) =~= (r
                + replace_all(a.drop_first(), seq![x], r)) + replace_all(b, seq![x], r));
        } else {
            assert(seq![a[0]] + (replace_all(a.drop_first(), seq![x], r) + replace_all(b, seq![x], r)) =~= (seq![a[0]]
                + replace_all(a.drop_first(), seq![x], r)) + replace_all(b, seq![x], r));
        }
    }
}

/// Identifiers are sanitised character by character: `<` becomes `_LT_`,
/// `>` becomes `_GT_`, `,` becomes `_COMMA_`, a space becomes `_`, and
/// every other character stays; the empty name stays empty.
pub proof fn lemma_sanitize_by_char(c: char, rest: Seq<char>)
    ensures
        sanitized(seq![c] + rest) == sanitized(seq![c]) + sanitized(rest),
        sanitized(seq![c]) == (if c == '<' {
            seq!['_', 'L', 'T', '_']
        } else if c == '>' {
            seq!['_', 'G', 'T', '_']
        } else if c == ',' {
            seq!['_', 'C', 'O', 'M', 'M', 'A', '_']
        } else if c == ' ' {
            seq!['_']
        } else {
            seq![c]
        }),
        sanitized(Seq::<char>::empty()) == Seq::<char>::empty(),
{
    reveal_strlit("<");
    reveal_strlit(">");
    reveal_strlit(",");
    reveal_strlit(" ");
    reveal_strlit("_LT_");
    reveal_strlit("_GT_");
    reveal_strlit("_COMMA_");
    reveal_strlit("_");
    assert("<"@ =~= seq!['<']);
    assert(">"@ =~= seq!['>']);
    assert(","@ =~= seq![',']);
    assert(" "@ =~= seq![' ']);
    assert("_LT_"@ =~= seq!['_', 'L', 'T', '_']);
    assert("_GT_"@ =~= seq!['_', 'G', 'T', '_']);
    assert("_COMMA_"@ =~= seq!['_', 'C', 'O', 'M', 'M', 'A', '_']);
    assert("_"@ =~= seq!['_']);
    let a = seq![c];
    let r1a = replace_all(a, seq!['<'], "_LT_"@);
    let r1b = replace_all(rest, seq!['<'], "_LT_"@);
    lemma_replace_one_concat(a, rest, '<', "_LT_"@);
    let r2a = replace_all(r1a, seq!['>'], "_GT_"@);
    let r2b = replace_all(r1b, seq!['>'], "_GT_"@);
    lemma_replace_one_concat(r1a, r1b, '>', "_GT_"@);
    let r3a = replace_all(r2a, seq![','], "_COMMA_"@);
    let r3b = replace_all(r2b, seq![','], "_COMMA_"@);
    lemma_replace_one_concat(r2a, r2b, ',', "_COMMA_"@);
    lemma_replace_one_concat(r3a, r3b, ' ', "_"@);
    // one character through each replacement
    assert(a.take(1) =~= a);
    assert(a.skip(1) =~= Seq::<char>::empty());
    assert(a.drop_first() =~= Seq::<char>::empty());
    let e = Seq::<char>::empty();
    assert(replace_all(e, seq!['<'], "_LT_"@) == e);
    assert(replace_all(e, seq!['>'], "_GT_"@) == e);
    assert(replace_all(e, seq![','], "_COMMA_"@) == e);
    assert(replace_all(e, seq![' '], "_"@) == e);
    assert(r1a == (if c == '<' { "_LT_"@ } else { a })) by {
        if c != '<' {
            assert(a.take(1) != seq!['<']) by {
                assert(a.take(1)[0] == c);
            }
            assert(seq![c] + e =~= a);
        } else {
            assert("_LT_"@ + e =~= "_LT_"@);
        }
    }
    if c == '<' {
        crate::text::lemma_replace_absent(r1a, seq!['>'], "_GT_"@);
        crate::text::lemma_replace_absent(r1a, seq![','], "_COMMA_"@);
        crate::text::lemma_replace_absent(r1a, seq![' '], "_"@);
    } else {
        assert(r2a == (if c == '>' { "_GT_"@ } else { a })) by {
            if c != '>' {
                assert(a.take(1)[0] == c);
                assert(seq![c] + e =~= a);
            } else {
                assert("_GT_"@ + e =~= "_GT_"@);
            }
        }
        if c == '>' {
            crate::text::lemma_replace_absent(r2a, seq![','], "_COMMA_"@);
            crate::text::lemma_replace_absent(r2a, seq![' '], "_"@);
        } else {
            assert(r3a == (if c == ',' { "_COMMA_"@ } else { a })) by {
                if c != ',' {
                    assert(a.take(1)[0] == c);
                    assert(seq![c] + e =~= a);
                } else {
                    assert("_COMMA_"@ + e =~= "_COMMA_"@);
                }
            }
            if c == ',' {
                crate::text::lemma_replace_absent(r3a, seq![' '], "_"@);
            } else {
                assert(replace_all(r3a, seq![' '], "_"@) == (if c == ' ' { "_"@ } else { a })) by {
                    if c != ' ' {
                        assert(a.take(1)[0] == c);
                        assert(seq![c] + e =~= a);
                    } else {
                        assert("_"@ + e =~= "_"@);
                    }
                }
            }
        }
    }
}

} // verus!
