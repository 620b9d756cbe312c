//! Entity-relationship diagram ranking: which rank every entity,
//! relationship and attribute takes before the graph layout runs.
use vstd::prelude::*;

use crate::layout::graphviz::{EdgeView, LayoutEdge, edge_view, edge_views};
use crate::model::{ErdIsa, ErdLink};
use crate::name_table::NameTable;
use crate::text::{str_eq, string_views};

verus! {

/// The link joins `u` and `v`, in either direction.
pub open spec fn link_joins(l: ErdLink, u: Seq<char>, v: Seq<char>) -> bool {
    (l.from@ == u && l.to@ == v) || (l.from@ == v && l.to@ == u)
}

/// The ISA joins its parent and one of its children, `u` and `v` in
/// either order.
pub open spec fn isa_joins(isa: ErdIsa, u: Seq<char>, v: Seq<char>) -> bool {
    exists|c: int|
        0 <= c < isa.children.len() && ((isa.parent@ == u && (#[trigger] isa.children@[c])@ == v)
            || (isa.parent@ == v && isa.children@[c]@ == u))
}

/// `u` and `v` are neighbours: some link or ISA joins them.
pub open spec fn adjacent(links: Seq<ErdLink>, isas: Seq<ErdIsa>, u: Seq<char>, v: Seq<char>) -> bool {
    (exists|k: int| 0 <= k < links.len() && link_joins(#[trigger] links[k], u, v)) || (exists|k: int|
        0 <= k < isas.len() && isa_joins(#[trigger] isas[k], u, v))
}

/// A walk: consecutive nodes are neighbours.
pub open spec fn is_walk(links: Seq<ErdLink>, isas: Seq<ErdIsa>, p: Seq<Seq<char>>) -> bool {
    p.len() >= 1 && forall|i: int|
        0 <= i < p.len() - 1 ==> #[trigger] adjacent(links, isas, p[i], p[i + 1])
}

/// `v` can be reached from `u` in at most `k` steps between neighbours.
pub open spec fn within(links: Seq<ErdLink>, isas: Seq<ErdIsa>, u: Seq<char>, v: Seq<char>, k: nat) -> bool {
    exists|p: Seq<Seq<char>>|
        #[trigger] is_walk(links, isas, p) && p[0] == u && p.last() == v && p.len() <= k + 1
}

/// `v` can be reached from `u`.
pub open spec fn connected(links: Seq<ErdLink>, isas: Seq<ErdIsa>, u: Seq<char>, v: Seq<char>) -> bool {
    exists|k: nat| #[trigger] within(links, isas, u, v, k)
}

/// The shortest way from `u` to `v` takes `d` steps.
pub open spec fn is_distance(links: Seq<ErdLink>, isas: Seq<ErdIsa>, u: Seq<char>, v: Seq<char>, d: nat) -> bool {
    within(links, isas, u, v, d) && (d == 0 || !within(links, isas, u, v, (d - 1) as nat))
}

/// Number of names equal to `x`.
pub open spec fn count_name(s: Seq<String>, x: Seq<char>) -> nat
    decreases s.len(),
{
    if s.len() == 0 {
        0
    } else {
        count_name(s.drop_last(), x) + if s.last()@ == x {
            1nat
        } else {
            0nat
        }
    }
}

/// Number of links that end at `x`.
pub open spec fn count_links_to(links: Seq<ErdLink>, x: Seq<char>) -> nat
    decreases links.len(),
{
    if links.len() == 0 {
        0
    } else {
        count_links_to(links.drop_last(), x) + if links.last().to@ == x {
            1nat
        } else {
            0nat
        }
    }
}

/// Number of ISA children named `x`.
pub open spec fn count_isa_children(isas: Seq<ErdIsa>, x: Seq<char>) -> nat
    decreases isas.len(),
{
    if isas.len() == 0 {
        0
    } else {
        count_isa_children(isas.drop_last(), x) + count_name(isas.last().children@, x)
    }
}

/// Incoming edges of `x`: the links ending at it and the ISAs that make
/// it a child.
pub open spec fn in_degree(links: Seq<ErdLink>, isas: Seq<ErdIsa>, x: Seq<char>) -> nat {
    count_links_to(links, x) + count_isa_children(isas, x)
}

/// Order in which declared ids start a ranking: fewer incoming edges
/// first, then declaration order.
pub open spec fn starts_before(all_ids: Seq<String>, links: Seq<ErdLink>, isas: Seq<ErdIsa>, q: int, p: int) -> bool {
    let dq = in_degree(links, isas, all_ids[q]@);
    let dp = in_degree(links, isas, all_ids[p]@);
    dq < dp || (dq == dp && q < p)
}

/// Declared id `p` is where the ranking of `x`'s component starts: it
/// reaches `x`, and no declared id that reaches `x` comes before it.
pub open spec fn is_rank_root(all_ids: Seq<String>, links: Seq<ErdLink>, isas: Seq<ErdIsa>, p: int, x: Seq<char>) -> bool {
    &&& 0 <= p < all_ids.len()
    &&& connected(links, isas, all_ids[p]@, x)
    &&& forall|q: int|
        0 <= q < all_ids.len() && #[trigger] connected(links, isas, all_ids[q]@, x) ==> !starts_before(
            all_ids,
            links,
            isas,
            q,
            p,
        )
}

/// Ranks of an ERD: exactly the names that a declared id reaches are
/// ranked, each by its shortest distance from the declared id where its
/// component's ranking starts.
pub open spec fn erd_ranks(all_ids: Seq<String>, links: Seq<ErdLink>, isas: Seq<ErdIsa>, m: Map<Seq<char>, usize>) -> bool {
    &&& forall|x: Seq<char>|
        #[trigger] m.contains_key(x) <==> exists|p: int|
            0 <= p < all_ids.len() && #[trigger] connected(links, isas, all_ids[p]@, x)
    &&& forall|x: Seq<char>|
        #[trigger] m.contains_key(x) ==> exists|p: int|
            #[trigger] is_rank_root(all_ids, links, isas, p, x) && is_distance(
                links,
                isas,
                all_ids[p]@,
                x,
                m[x] as nat,
            )
}

// ---------------------------------------------------------------------------
// Reachability facts
// ---------------------------------------------------------------------------

/// A step to a neighbour extends a walk by one.
pub proof fn lemma_within_step(links: Seq<ErdLink>, isas: Seq<ErdIsa>, u: Seq<char>, w: Seq<char>, v: Seq<char>, k: nat)
    requires
        within(links, isas, u, w, k),
        adjacent(links, isas, w, v),
    ensures
        within(links, isas, u, v, k + 1),
{
    let p = choose|p: Seq<Seq<char>>|
        #[trigger] is_walk(links, isas, p) && p[0] == u && p.last() == w && p.len() <= k + 1;
    let q = p.push(v);
    assert forall|i: int| 0 <= i < q.len() - 1 implies #[trigger] adjacent(links, isas, q[i], q[i + 1]) by {
        if i < p.len() - 1 {
            assert(adjacent(links, isas, p[i], p[i + 1]));
        }
    }
    assert(is_walk(links, isas, q));
}

/// A node is reached from itself without a step.
pub proof fn lemma_within_refl(links: Seq<ErdLink>, isas: Seq<ErdIsa>, u: Seq<char>)
    ensures
        within(links, isas, u, u, 0),
{
    let p = seq![u];
    assert(is_walk(links, isas, p));
}

/// More steps allowed reach at least as far.
pub proof fn lemma_within_mono(links: Seq<ErdLink>, isas: Seq<ErdIsa>, u: Seq<char>, v: Seq<char>, k: nat, j: nat)
    requires
        within(links, isas, u, v, k),
        k <= j,
    ensures
        within(links, isas, u, v, j),
{
    let p = choose|p: Seq<Seq<char>>|
        #[trigger] is_walk(links, isas, p) && p[0] == u && p.last() == v && p.len() <= k + 1;
    assert(is_walk(links, isas, p) && p[0] == u && p.last() == v && p.len() <= j + 1);
}

/// Walks compose.
pub proof fn lemma_within_trans(
    links: Seq<ErdLink>,
    isas: Seq<ErdIsa>,
    a: Seq<char>,
    b: Seq<char>,
    c: Seq<char>,
    k1: nat,
    k2: nat,
)
    requires
        within(links, isas, a, b, k1),
        within(links, isas, b, c, k2),
    ensures
        within(links, isas, a, c, k1 + k2),
{
    let p = choose|p: Seq<Seq<char>>|
        #[trigger] is_walk(links, isas, p) && p[0] == a && p.last() == b && p.len() <= k1 + 1;
    let r = choose|r: Seq<Seq<char>>|
        #[trigger] is_walk(links, isas, r) && r[0] == b && r.last() == c && r.len() <= k2 + 1;
    let q = p + r.drop_first();
    assert forall|i: int| 0 <= i < q.len() - 1 implies #[trigger] adjacent(links, isas, q[i], q[i + 1]) by {
        if i < p.len() - 1 {
            assert(adjacent(links, isas, p[i], p[i + 1]));
        } else if i == p.len() - 1 {
            assert(q[i] == b);
            assert(q[i + 1] == r[1]);
            assert(adjacent(links, isas, r[0int], r[0int + 1]));
        } else {
            let j = i - p.len() + 1;
            assert(q[i] == r[j]);
            assert(q[i + 1] == r[j + 1]);
            assert(adjacent(links, isas, r[j], r[j + 1]));
        }
    }
    if r.len() == 1 {
        assert(q =~= p);
    } else {
        assert(q.last() == r.last());
    }
    assert(is_walk(links, isas, q));
}

/// Neighbourhood is symmetric.
pub proof fn lemma_adjacent_sym(links: Seq<ErdLink>, isas: Seq<ErdIsa>, u: Seq<char>, v: Seq<char>)
    requires
        adjacent(links, isas, u, v),
    ensures
        adjacent(links, isas, v, u),
{
    if exists|k: int| 0 <= k < links.len() && link_joins(#[trigger] links[k], u, v) {
        let k = choose|k: int| 0 <= k < links.len() && link_joins(#[trigger] links[k], u, v);
        assert(link_joins(links[k], v, u));
    } else {
        let k = choose|k: int| 0 <= k < isas.len() && isa_joins(#[trigger] isas[k], u, v);
        let c = choose|c: int|
            0 <= c < isas[k].children.len() && ((isas[k].parent@ == u && (#[trigger] isas[k].children@[c])@
                == v) || (isas[k].parent@ == v && isas[k].children@[c]@ == u));
        assert(isa_joins(isas[k], v, u));
    }
}

/// Walks can be walked back.
pub proof fn lemma_within_sym(links: Seq<ErdLink>, isas: Seq<ErdIsa>, u: Seq<char>, v: Seq<char>, k: nat)
    requires
        within(links, isas, u, v, k),
    ensures
        within(links, isas, v, u, k),
{
    let p = choose|p: Seq<Seq<char>>|
        #[trigger] is_walk(links, isas, p) && p[0] == u && p.last() == v && p.len() <= k + 1;
    let q = p.reverse();
    assert forall|i: int| 0 <= i < q.len() - 1 implies #[trigger] adjacent(links, isas, q[i], q[i + 1]) by {
        let j = p.len() - 2 - i;
        assert(q[i] == p[j + 1]);
        assert(q[i + 1] == p[j]);
        assert(adjacent(links, isas, p[j], p[j + 1]));
        lemma_adjacent_sym(links, isas, p[j], p[j + 1]);
    }
    assert(is_walk(links, isas, q));
    assert(q[0] == v);
    assert(q.last() == u);
}

/// A walk of at most `k + 1` steps that is not one of `k` steps ends with
/// a step from a node reached within `k`.
pub proof fn lemma_within_last_step(links: Seq<ErdLink>, isas: Seq<ErdIsa>, u: Seq<char>, v: Seq<char>, k: nat)
    requires
        within(links, isas, u, v, k + 1),
        !within(links, isas, u, v, k),
    ensures
        exists|w: Seq<char>|
            #[trigger] within(links, isas, u, w, k) && adjacent(links, isas, w, v),
{
    let p = choose|p: Seq<Seq<char>>|
        #[trigger] is_walk(links, isas, p) && p[0] == u && p.last() == v && p.len() <= k + 2;
    assert(p.len() == k + 2);
    let q = p.drop_last();
    assert forall|i: int| 0 <= i < q.len() - 1 implies #[trigger] adjacent(links, isas, q[i], q[i + 1]) by {
        assert(adjacent(links, isas, p[i], p[i + 1]));
    }
    assert(is_walk(links, isas, q));
    let w = q.last();
    assert(adjacent(links, isas, p[k as int], p[k as int + 1]));
    assert(within(links, isas, u, w, k));
}

// ---------------------------------------------------------------------------
// Node numbering
// ---------------------------------------------------------------------------

/// `m` numbers `names`: every name maps to its position.
pub open spec fn index_ok(names: Seq<String>, m: Map<Seq<char>, usize>) -> bool {
    &&& forall|x: Seq<char>|
        #[trigger] m.contains_key(x) ==> m[x] < names.len() && names[m[x] as int]@ == x
    &&& forall|i: int|
        0 <= i < names.len() ==> m.contains_key(#[trigger] names[i]@) && m[names[i]@] == i
}

/// Every name that the ids, links and ISAs mention is numbered.
pub open spec fn covers_graph(m: Map<Seq<char>, usize>, all_ids: Seq<String>, links: Seq<ErdLink>, isas: Seq<ErdIsa>) -> bool {
    &&& forall|p: int| 0 <= p < all_ids.len() ==> m.contains_key(#[trigger] all_ids[p]@)
    &&& forall|k: int|
        0 <= k < links.len() ==> m.contains_key((#[trigger] links[k]).from@) && m.contains_key(
            links[k].to@,
        )
    &&& forall|k: int| 0 <= k < isas.len() ==> m.contains_key((#[trigger] isas[k]).parent@)
    &&& forall|k: int, c: int|
        0 <= k < isas.len() && 0 <= c < isas[k].children.len() ==> m.contains_key(
            (#[trigger] isas[k].children@[c])@,
        )
}

/// A neighbour of anything is a numbered name.
proof fn lemma_adjacent_covered(
    m: Map<Seq<char>, usize>,
    all_ids: Seq<String>,
    links: Seq<ErdLink>,
    isas: Seq<ErdIsa>,
    w: Seq<char>,
    y: Seq<char>,
)
    requires
        covers_graph(m, all_ids, links, isas),
        adjacent(links, isas, w, y),
    ensures
        m.contains_key(y),
{
    if exists|k: int| 0 <= k < links.len() && link_joins(#[trigger] links[k], w, y) {
        let k = choose|k: int| 0 <= k < links.len() && link_joins(#[trigger] links[k], w, y);
        assert(m.contains_key(links[k].from@));
    } else {
        let k = choose|k: int| 0 <= k < isas.len() && isa_joins(#[trigger] isas[k], w, y);
        let c = choose|c: int|
            0 <= c < isas[k].children.len() && ((isas[k].parent@ == w && (#[trigger] isas[k].children@[c])@
                == y) || (isas[k].parent@ == y && isas[k].children@[c]@ == w));
        assert(m.contains_key(isas[k].parent@));
        assert(m.contains_key(isas[k].children@[c]@));
    }
}

fn add_name(names: &mut Vec<String>, index: &mut NameTable<usize>, name: &String)
    requires
        index_ok(old(names)@, old(index)@),
    ensures
        index_ok(final(names)@, final(index)@),
        final(index)@.dom() == old(index)@.dom().insert(name@),
{
    match index.get(name.as_str()) {
        Some(_) => {
            assert(index@.dom().insert(name@) =~= index@.dom());
        },
        None => {
            let i = names.len();
            let ghost old_names = names@;
            let ghost old_map = index@;
            names.push(name.clone());
            index.insert(name.clone(), i);
            assert(names@ == old_names.push(*name));
            assert forall|x: Seq<char>| #[trigger] index@.contains_key(x) implies index@[x] < names.len()
                && names@[index@[x] as int]@ == x by {
                if x != name@ {
                    assert(old_map.contains_key(x));
                }
            }
            assert forall|j: int| 0 <= j < names.len() implies index@.contains_key(
                #[trigger] names@[j]@,
            ) && index@[names@[j]@] == j by {
                if j < i {
                    assert(old_names[j]@ != name@);
                }
            }
        },
    }
}

/// Numbers every name that the ids, links and ISAs mention.
fn number_nodes(all_ids: &[String], links: &[ErdLink], isas: &[ErdIsa]) -> (res: (Vec<String>, NameTable<usize>))
    ensures
        index_ok(res.0@, res.1@),
        covers_graph(res.1@, all_ids@, links@, isas@),
{
    let mut names: Vec<String> = Vec::new();
    let mut index: NameTable<usize> = NameTable::new();
    assert(index_ok(names@, index@));
    for p in 0..all_ids.len()
        invariant
            index_ok(names@, index@),
            forall|q: int| 0 <= q < p ==> index@.contains_key(#[trigger] all_ids@[q]@),
    {
        add_name(&mut names, &mut index, &all_ids[p]);
    }
    for k in 0..links.len()
        invariant
            index_ok(names@, index@),
            forall|q: int| 0 <= q < all_ids.len() ==> index@.contains_key(#[trigger] all_ids@[q]@),
            forall|j: int|
                0 <= j < k ==> index@.contains_key((#[trigger] links@[j]).from@) && index@.contains_key(
                    links@[j].to@,
                ),
    {
        add_name(&mut names, &mut index, &links[k].from);
        add_name(&mut names, &mut index, &links[k].to);
    }
    for k in 0..isas.len()
        invariant
            index_ok(names@, index@),
            forall|q: int| 0 <= q < all_ids.len() ==> index@.contains_key(#[trigger] all_ids@[q]@),
            forall|j: int|
                0 <= j < links.len() ==> index@.contains_key((#[trigger] links@[j]).from@)
                    && index@.contains_key(links@[j].to@),
            forall|j: int| 0 <= j < k ==> index@.contains_key((#[trigger] isas@[j]).parent@),
            forall|j: int, c: int|
                0 <= j < k && 0 <= c < isas@[j].children.len() ==> index@.contains_key(
                    (#[trigger] isas@[j].children@[c])@,
                ),
    {
        add_name(&mut names, &mut index, &isas[k].parent);
        let children = &isas[k].children;
        for c in 0..children.len()
            invariant
                k < isas.len(),
                children == isas@[k as int].children,
                index_ok(names@, index@),
                forall|q: int| 0 <= q < all_ids.len() ==> index@.contains_key(#[trigger] all_ids@[q]@),
                forall|j: int|
                    0 <= j < links.len() ==> index@.contains_key((#[trigger] links@[j]).from@)
                        && index@.contains_key(links@[j].to@),
                forall|j: int| 0 <= j <= k ==> index@.contains_key((#[trigger] isas@[j]).parent@),
                forall|j: int, cc: int|
                    0 <= j < k && 0 <= cc < isas@[j].children.len() ==> index@.contains_key(
                        (#[trigger] isas@[j].children@[cc])@,
                    ),
                forall|cc: int| 0 <= cc < c ==> index@.contains_key((#[trigger] children@[cc])@),
        {
            add_name(&mut names, &mut index, &children[c]);
        }
    }
    (names, index)
}

// ---------------------------------------------------------------------------
// Incoming edges and the order of starts
// ---------------------------------------------------------------------------

fn count_name_exec(s: &Vec<String>, x: &str) -> (res: usize)
    ensures
        res == count_name(s@, x@),
        res <= s.len(),
{
    let mut n: usize = 0;
    for k in 0..s.len()
        invariant
            n == count_name(s@.take(k as int), x@),
            n <= k,
    {
        assert(s@.take(k + 1).drop_last() =~= s@.take(k as int));
        if str_eq(s[k].as_str(), x) {
            n = n + 1;
        }
    }
    assert(s@.take(s.len() as int) =~= s@);
    n
}

fn in_degree_exec(links: &[ErdLink], isas: &[ErdIsa], x: &str) -> (res: u128)
    ensures
        res == in_degree(links@, isas@, x@),
{
    let mut to: usize = 0;
    for k in 0..links.len()
        invariant
            to == count_links_to(links@.take(k as int), x@),
            to <= k,
    {
        assert(links@.take(k + 1).drop_last() =~= links@.take(k as int));
        if str_eq(links[k].to.as_str(), x) {
            to = to + 1;
        }
    }
    assert(links@.take(links.len() as int) =~= links@);
    let mut children: u128 = 0;
    for k in 0..isas.len()
        invariant
            children == count_isa_children(isas@.take(k as int), x@),
            children <= k * 0x1_0000_0000_0000_0000,
    {
        assert(isas@.take(k + 1).drop_last() =~= isas@.take(k as int));
        let c = count_name_exec(&isas[k].children, x);
        assert(c < 0x1_0000_0000_0000_0000);
        children = children + c as u128;
    }
    assert(isas@.take(isas.len() as int) =~= isas@);
    assert(children + to <= 0xffff_ffff_ffff_ffff_ffff_ffff_ffff_ffff) by (nonlinear_arith)
        requires
            children <= isas.len() * 0x1_0000_0000_0000_0000,
            isas.len() <= 0xffff_ffff_ffff_ffff,
            to <= 0xffff_ffff_ffff_ffff,
    ;
    children + to as u128
}

/// Position of the declared id that starts the next ranking: the first
/// among the unranked ones with the fewest incoming edges.
fn select_start(pos_node: &Vec<usize>, degs: &Vec<u128>, rank: &Vec<Option<usize>>) -> (res: Option<usize>)
    requires
        pos_node.len() == degs.len(),
        forall|p: int| 0 <= p < pos_node.len() ==> #[trigger] pos_node@[p] < rank.len(),
    ensures
        match res {
            Some(p) => p < pos_node.len() && rank@[pos_node@[p as int] as int] is None && forall|q: int|
                0 <= q < pos_node.len() && rank@[#[trigger] pos_node@[q] as int] is None ==> !(
                degs@[q] < degs@[p as int] || (degs@[q] == degs@[p as int] && q < p)),
            None => forall|q: int|
                0 <= q < pos_node.len() ==> rank@[#[trigger] pos_node@[q] as int] is Some,
        },
{
    let mut best: Option<usize> = None;
    for p in 0..pos_node.len()
        invariant
            pos_node.len() == degs.len(),
            forall|p: int| 0 <= p < pos_node.len() ==> #[trigger] pos_node@[p] < rank.len(),
            match best {
                Some(b) => b < p && rank@[pos_node@[b as int] as int] is None && forall|q: int|
                    0 <= q < p && rank@[#[trigger] pos_node@[q] as int] is None ==> !(degs@[q]
                        < degs@[b as int] || (degs@[q] == degs@[b as int] && q < b)),
                None => forall|q: int|
                    0 <= q < p ==> rank@[#[trigger] pos_node@[q] as int] is Some,
            },
    {
        if rank[pos_node[p]].is_none() {
            match best {
                Some(b) => {
                    if degs[p] < degs[b] {
                        best = Some(p);
                    }
                },
                None => {
                    best = Some(p);
                },
            }
        }
    }
    best
}

// ---------------------------------------------------------------------------
// Breadth-first ranking of one component
// ---------------------------------------------------------------------------

/// Number of nodes without a rank.
pub open spec fn count_none(r: Seq<Option<usize>>) -> nat
    decreases r.len(),
{
    if r.len() == 0 {
        0
    } else {
        count_none(r.drop_last()) + if r.last() is None {
            1nat
        } else {
            0nat
        }
    }
}

proof fn lemma_count_none_update(r: Seq<Option<usize>>, w: int, x: usize)
    requires
        0 <= w < r.len(),
        r[w] is None,
    ensures
        count_none(r.update(w, Some(x))) + 1 == count_none(r),
    decreases r.len(),
{
    if w < r.len() - 1 {
        lemma_count_none_update(r.drop_last(), w, x);
        assert(r.update(w, Some(x)).drop_last() =~= r.drop_last().update(w, Some(x)));
    } else {
        assert(r.update(w, Some(x)).drop_last() =~= r.drop_last());
    }
}

/// Ranked nodes pass on a rank to everything they reach.
pub open spec fn closed(names: Seq<String>, m: Map<Seq<char>, usize>, links: Seq<ErdLink>, isas: Seq<ErdIsa>, r: Seq<Option<usize>>) -> bool {
    forall|i: int, y: Seq<char>|
        0 <= i < names.len() && r[i] is Some && #[trigger] connected(links, isas, names[i]@, y)
            ==> m.contains_key(y) && r[m[y] as int] is Some
}

/// State of a breadth-first ranking from node `s`: `r0` holds the ranks
/// before it, `r` the ranks now, `q` the nodes ranked by it in the order
/// they were reached, of which the first `h` have had their neighbours
/// ranked.
pub open spec fn bfs_inv(
    names: Seq<String>,
    m: Map<Seq<char>, usize>,
    links: Seq<ErdLink>,
    isas: Seq<ErdIsa>,
    r0: Seq<Option<usize>>,
    r: Seq<Option<usize>>,
    q: Seq<usize>,
    h: int,
    s: int,
) -> bool {
    &&& r.len() == names.len()
    &&& r0.len() == names.len()
    &&& 0 <= s < names.len()
    &&& 0 <= h <= q.len()
    &&& q.len() >= 1
    &&& q[0] == s
    &&& forall|t: int|
        0 <= t < q.len() ==> (#[trigger] q[t]) < names.len() && r[q[t] as int] is Some
            && r0[q[t] as int] is None
    &&& forall|t1: int, t2: int| 0 <= t1 < t2 < q.len() ==> #[trigger] q[t1] != #[trigger] q[t2]
    &&& forall|i: int|
        0 <= i < names.len() && (#[trigger] r[i]) is Some && r0[i] is None ==> q.contains(
            i as usize,
        )
    &&& forall|i: int| 0 <= i < names.len() && r0[i] is Some ==> #[trigger] r[i] == r0[i]
    &&& forall|t1: int, t2: int|
        0 <= t1 <= t2 < q.len() ==> r[#[trigger] q[t1] as int]->0 <= r[#[trigger] q[t2] as int]->0
    &&& h < q.len() ==> r[q.last() as int]->0 <= r[q[h] as int]->0 + 1
    &&& forall|t: int| 0 <= t < q.len() ==> r[#[trigger] q[t] as int]->0 <= t
    &&& forall|t: int|
        0 <= t < q.len() ==> is_distance(
            links,
            isas,
            names[s]@,
            names[#[trigger] q[t] as int]@,
            r[q[t] as int]->0 as nat,
        )
    &&& forall|t: int, y: Seq<char>|
        0 <= t < h && #[trigger] adjacent(links, isas, names[#[trigger] q[t] as int]@, y)
            ==> m.contains_key(y) && r[m[y] as int] is Some
    &&& h < q.len() ==> forall|y: Seq<char>, e: nat|
        e <= r[q[h] as int]->0 && #[trigger] within(links, isas, names[s]@, y, e)
            ==> m.contains_key(y) && r[m[y] as int] is Some
}

/// Facts that hold around every breadth-first ranking.
pub open spec fn bfs_context(
    names: Seq<String>,
    m: Map<Seq<char>, usize>,
    all_ids: Seq<String>,
    links: Seq<ErdLink>,
    isas: Seq<ErdIsa>,
    r0: Seq<Option<usize>>,
    s: int,
) -> bool {
    &&& index_ok(names, m)
    &&& covers_graph(m, all_ids, links, isas)
    &&& r0.len() == names.len()
    &&& 0 <= s < names.len()
    &&& r0[s] is None
    &&& closed(names, m, links, isas, r0)
}

/// Nothing that the start reaches was ranked before.
proof fn lemma_reached_is_new(
    names: Seq<String>,
    m: Map<Seq<char>, usize>,
    all_ids: Seq<String>,
    links: Seq<ErdLink>,
    isas: Seq<ErdIsa>,
    r0: Seq<Option<usize>>,
    s: int,
    z: Seq<char>,
    e: nat,
)
    requires
        bfs_context(names, m, all_ids, links, isas, r0, s),
        m.contains_key(z),
        within(links, isas, names[s]@, z, e),
    ensures
        r0[m[z] as int] is None,
{
    if r0[m[z] as int] is Some {
        lemma_within_sym(links, isas, names[s]@, z, e);
        let i = m[z] as int;
        assert(names[i]@ == z);
        assert(connected(links, isas, names[i]@, names[s]@));
        assert(m[names[s]@] == s);
    }
}

proof fn lemma_bfs_init(
    names: Seq<String>,
    m: Map<Seq<char>, usize>,
    all_ids: Seq<String>,
    links: Seq<ErdLink>,
    isas: Seq<ErdIsa>,
    r0: Seq<Option<usize>>,
    s: int,
)
    requires
        bfs_context(names, m, all_ids, links, isas, r0, s),
    ensures
        bfs_inv(names, m, links, isas, r0, r0.update(s, Some(0usize)), seq![s as usize], 0, s),
{
    let r = r0.update(s, Some(0usize));
    let q = seq![s as usize];
    lemma_within_refl(links, isas, names[s]@);
    assert forall|i: int|
        0 <= i < names.len() && (#[trigger] r[i]) is Some && r0[i] is None implies q.contains(
        i as usize,
    ) by {
        assert(i == s);
        assert(q[0] == i as usize);
    }
    assert forall|y: Seq<char>, e: nat|
        e <= r[q[0] as int]->0 && #[trigger] within(links, isas, names[s]@, y, e) implies m.contains_key(
        y,
    ) && r[m[y] as int] is Some by {
        let p = choose|p: Seq<Seq<char>>|
            #[trigger] is_walk(links, isas, p) && p[0] == names[s]@ && p.last() == y && p.len() <= e + 1;
        assert(y == names[s]@);
    }
}

proof fn lemma_bfs_visit(
    names: Seq<String>,
    m: Map<Seq<char>, usize>,
    all_ids: Seq<String>,
    links: Seq<ErdLink>,
    isas: Seq<ErdIsa>,
    r0: Seq<Option<usize>>,
    r: Seq<Option<usize>>,
    q: Seq<usize>,
    h: int,
    s: int,
    w: int,
)
    requires
        bfs_context(names, m, all_ids, links, isas, r0, s),
        bfs_inv(names, m, links, isas, r0, r, q, h, s),
        h < q.len(),
        0 <= w < names.len(),
        r[w] is None,
        adjacent(links, isas, names[q[h] as int]@, names[w]@),
        q.len() <= usize::MAX,
    ensures
        bfs_inv(
            names,
            m,
            links,
            isas,
            r0,
            r.update(w, Some((r[q[h] as int]->0 + 1) as usize)),
            q.push(w as usize),
            h,
            s,
        ),
{
    let d = r[q[h] as int]->0;
    assert(d <= h);
    let r2 = r.update(w, Some((d + 1) as usize));
    let q2 = q.push(w as usize);
    let u = q[h] as int;
    assert(r0[w] is None) by {
        if r0[w] is Some {
            assert(r[w] == r0[w]);
        }
    }
    assert forall|t: int| 0 <= t < q.len() implies #[trigger] q[t] != w as usize by {
        assert(r[q[t] as int] is Some);
    }
    // the new node is at the right distance
    assert(is_distance(links, isas, names[s]@, names[u]@, d as nat));
    lemma_within_step(links, isas, names[s]@, names[u]@, names[w]@, d as nat);
    assert(!within(links, isas, names[s]@, names[w]@, d as nat)) by {
        if within(links, isas, names[s]@, names[w]@, d as nat) {
            assert(m[names[w]@] == w);
        }
    }
    assert(is_distance(links, isas, names[s]@, names[w]@, (d + 1) as nat));
    assert forall|t1: int, t2: int| 0 <= t1 < t2 < q2.len() implies #[trigger] q2[t1] != #[trigger] q2[t2] by {
        if t2 == q.len() {
            assert(q[t1] != w as usize);
        }
    }
    assert forall|i: int|
        0 <= i < names.len() && (#[trigger] r2[i]) is Some && r0[i] is None implies q2.contains(
        i as usize,
    ) by {
        if i == w {
            assert(q2[q.len() as int] == w as usize);
        } else {
            assert(r[i] is Some);
            let t = choose|t: int| 0 <= t < q.len() && q[t] == i as usize;
            assert(q2[t] == i as usize);
        }
    }
    assert forall|t1: int, t2: int|
        0 <= t1 <= t2 < q2.len() implies r2[#[trigger] q2[t1] as int]->0 <= r2[#[trigger] q2[t2] as int]->0 by {
        assert(r2[w]->0 == d + 1);
        if t2 == q.len() {
            assert(q2[t2] == w as usize);
            if t1 < q.len() {
                assert(q2[t1] == q[t1]);
                assert(r[q[t1] as int]->0 <= r[q[q.len() - 1] as int]->0);
                assert(q.last() == q[q.len() - 1]);
                assert(q[t1] != w as usize);
            }
        } else {
            assert(q2[t1] == q[t1]);
            assert(q2[t2] == q[t2]);
            assert(q[t1] != w as usize);
            assert(q[t2] != w as usize);
            assert(r[q[t1] as int]->0 <= r[q[t2] as int]->0);
        }
    }
    assert forall|t: int| 0 <= t < q2.len() implies r2[#[trigger] q2[t] as int]->0 <= t by {
        if t < q.len() {
            assert(q[t] != w as usize);
            assert(r[q[t] as int]->0 <= t);
        } else {
            assert(r[q[h] as int]->0 <= h);
        }
    }
    assert forall|t: int| 0 <= t < q2.len() implies is_distance(
        links,
        isas,
        names[s]@,
        names[#[trigger] q2[t] as int]@,
        r2[q2[t] as int]->0 as nat,
    ) by {
        if t < q.len() {
            assert(q2[t] == q[t]);
            assert(q[t] != w as usize);
            assert(is_distance(links, isas, names[s]@, names[q[t] as int]@, r[q[t] as int]->0 as nat));
        } else {
            assert(q2[t] == w as usize);
            assert(r2[w]->0 == d + 1);
        }
    }
    assert forall|t: int, y: Seq<char>|
        0 <= t < h && #[trigger] adjacent(links, isas, names[#[trigger] q2[t] as int]@, y) implies m.contains_key(y)
        && r2[m[y] as int] is Some by {
        assert(q2[t] == q[t]);
        assert(adjacent(links, isas, names[q[t] as int]@, y));
    }
    assert forall|y: Seq<char>, e: nat|
        e <= r2[q2[h] as int]->0 && #[trigger] within(links, isas, names[s]@, y, e) implies m.contains_key(y)
        && r2[m[y] as int] is Some by {
        assert(q2[h] == q[h]);
        assert(q[h] != w as usize);
    }
    assert(r2[q2.last() as int]->0 <= r2[q2[h] as int]->0 + 1) by {
        assert(q2[h] == q[h]);
        assert(q[h] != w as usize);
    }
}

proof fn lemma_bfs_advance(
    names: Seq<String>,
    m: Map<Seq<char>, usize>,
    all_ids: Seq<String>,
    links: Seq<ErdLink>,
    isas: Seq<ErdIsa>,
    r0: Seq<Option<usize>>,
    r: Seq<Option<usize>>,
    q: Seq<usize>,
    h: int,
    s: int,
)
    requires
        bfs_context(names, m, all_ids, links, isas, r0, s),
        bfs_inv(names, m, links, isas, r0, r, q, h, s),
        h < q.len(),
        forall|y: Seq<char>|
            #[trigger] adjacent(links, isas, names[q[h] as int]@, y) ==> m.contains_key(y) && r[m[y] as int] is Some,
    ensures
        bfs_inv(names, m, links, isas, r0, r, q, h + 1, s),
{
    let d = r[q[h] as int]->0;
    assert forall|t: int, y: Seq<char>|
        0 <= t < h + 1 && #[trigger] adjacent(links, isas, names[#[trigger] q[t] as int]@, y) implies m.contains_key(y)
        && r[m[y] as int] is Some by {
        if t == h {
            assert(adjacent(links, isas, names[q[h] as int]@, y));
        }
    }
    if h + 1 < q.len() {
        assert(r[q[h] as int]->0 <= r[q[h + 1] as int]->0);
        assert forall|y: Seq<char>, e: nat|
            e <= r[q[h + 1] as int]->0 && #[trigger] within(links, isas, names[s]@, y, e) implies m.contains_key(y)
            && r[m[y] as int] is Some by {
            if e <= d {
            } else if within(links, isas, names[s]@, y, d as nat) {
            } else {
                assert(e == d + 1);
                lemma_within_last_step(links, isas, names[s]@, y, d as nat);
                let z = choose|z: Seq<char>|
                    #[trigger] within(links, isas, names[s]@, z, d as nat) && adjacent(links, isas, z, y);
                assert(m.contains_key(z) && r[m[z] as int] is Some);
                lemma_reached_is_new(names, m, all_ids, links, isas, r0, s, z, d as nat);
                let zi = m[z] as int;
                assert(names[zi]@ == z);
                assert(q.contains(zi as usize));
                let t = choose|t: int| 0 <= t < q.len() && q[t] == zi as usize;
                assert(is_distance(links, isas, names[s]@, names[q[t] as int]@, r[q[t] as int]->0 as nat));
                let rz = r[q[t] as int]->0;
                if rz > d {
                    lemma_within_mono(links, isas, names[s]@, z, d as nat, (rz - 1) as nat);
                }
                if t > h {
                    assert(r[q[h + 1] as int]->0 <= r[q[t] as int]->0);
                }
                assert(adjacent(links, isas, names[q[t] as int]@, y));
            }
        }
        assert(r[q.last() as int]->0 <= r[q[h + 1] as int]->0 + 1);
    }
}

proof fn lemma_bfs_complete(
    names: Seq<String>,
    m: Map<Seq<char>, usize>,
    all_ids: Seq<String>,
    links: Seq<ErdLink>,
    isas: Seq<ErdIsa>,
    r0: Seq<Option<usize>>,
    r: Seq<Option<usize>>,
    q: Seq<usize>,
    s: int,
    y: Seq<char>,
    e: nat,
)
    requires
        bfs_context(names, m, all_ids, links, isas, r0, s),
        bfs_inv(names, m, links, isas, r0, r, q, q.len() as int, s),
        within(links, isas, names[s]@, y, e),
    ensures
        m.contains_key(y) && r[m[y] as int] is Some,
    decreases e,
{
    if e == 0 {
        let p = choose|p: Seq<Seq<char>>|
            #[trigger] is_walk(links, isas, p) && p[0] == names[s]@ && p.last() == y && p.len() <= e + 1;
        assert(y == names[s]@);
        assert(q[0] == s as usize);
    } else if within(links, isas, names[s]@, y, (e - 1) as nat) {
        lemma_bfs_complete(names, m, all_ids, links, isas, r0, r, q, s, y, (e - 1) as nat);
    } else {
        lemma_within_last_step(links, isas, names[s]@, y, (e - 1) as nat);
        let z = choose|z: Seq<char>|
            #[trigger] within(links, isas, names[s]@, z, (e - 1) as nat) && adjacent(links, isas, z, y);
        lemma_bfs_complete(names, m, all_ids, links, isas, r0, r, q, s, z, (e - 1) as nat);
        lemma_reached_is_new(names, m, all_ids, links, isas, r0, s, z, (e - 1) as nat);
        let zi = m[z] as int;
        assert(names[zi]@ == z);
        assert(q.contains(zi as usize));
        let t = choose|t: int| 0 <= t < q.len() && q[t] == zi as usize;
        assert(adjacent(links, isas, names[q[t] as int]@, y));
    }
}

/// Ranks the node called `name`, a neighbour of the node at the head of
/// the queue, unless it has a rank already.
fn bfs_visit(
    names: &Vec<String>,
    index: &NameTable<usize>,
    all_ids: &[String],
    links: &[ErdLink],
    isas: &[ErdIsa],
    rank: &mut Vec<Option<usize>>,
    queue: &mut Vec<usize>,
    h: usize,
    s: usize,
    Ghost(r0): Ghost<Seq<Option<usize>>>,
    name: &String,
)
    requires
        bfs_context(names@, index@, all_ids@, links@, isas@, r0, s as int),
        bfs_inv(names@, index@, links@, isas@, r0, old(rank)@, old(queue)@, h as int, s as int),
        h < old(queue).len(),
        adjacent(links@, isas@, names@[old(queue)@[h as int] as int]@, name@),
    ensures
        bfs_inv(names@, index@, links@, isas@, r0, final(rank)@, final(queue)@, h as int, s as int),
        final(queue)@.len() >= old(queue)@.len(),
        final(queue)@[h as int] == old(queue)@[h as int],
        index@.contains_key(name@) && final(rank)@[index@[name@] as int] is Some,
        forall|j: int|
            0 <= j < old(rank)@.len() && old(rank)@[j] is Some ==> #[trigger] final(rank)@[j]
                == old(rank)@[j],
        count_none(final(rank)@) + final(queue)@.len() == count_none(old(rank)@) + old(queue)@.len(),
{
    proof {
        lemma_adjacent_covered(
            index@,
            all_ids@,
            links@,
            isas@,
            names@[queue@[h as int] as int]@,
            name@,
        );
    }
    let w = match index.get(name.as_str()) {
        Some(i) => *i,
        None => {
            return ;
        },
    };
    assert(names@[w as int]@ == name@);
    if rank[w].is_none() {
        let d = rank[queue[h]].unwrap();
        proof {
            lemma_bfs_visit(
                names@,
                index@,
                all_ids@,
                links@,
                isas@,
                r0,
                rank@,
                queue@,
                h as int,
                s as int,
                w as int,
            );
            lemma_count_none_update(rank@, w as int, (d + 1) as usize);
            assert(d <= h);
        }
        rank.set(w, Some(d + 1));
        queue.push(w);
    }
}

/// Breadth-first ranking of everything node `s` reaches: each gets its
/// distance from `s`.
fn bfs(
    names: &Vec<String>,
    index: &NameTable<usize>,
    all_ids: &[String],
    links: &[ErdLink],
    isas: &[ErdIsa],
    rank: &mut Vec<Option<usize>>,
    s: usize,
)
    requires
        bfs_context(names@, index@, all_ids@, links@, isas@, old(rank)@, s as int),
    ensures
        final(rank)@.len() == old(rank)@.len(),
        forall|j: int|
            0 <= j < old(rank)@.len() && old(rank)@[j] is Some ==> #[trigger] final(rank)@[j]
                == old(rank)@[j],
        forall|j: int|
            0 <= j < old(rank)@.len() && #[trigger] final(rank)@[j] is Some && old(rank)@[j] is None
                ==> is_distance(links@, isas@, names@[s as int]@, names@[j]@, final(rank)@[j]->0 as nat),
        forall|y: Seq<char>, e: nat|
            #[trigger] within(links@, isas@, names@[s as int]@, y, e) ==> index@.contains_key(y)
                && final(rank)@[index@[y] as int] is Some,
        count_none(final(rank)@) < count_none(old(rank)@),
{
    let ghost r0 = rank@;
    let mut queue: Vec<usize> = Vec::new();
    queue.push(s);
    proof {
        lemma_count_none_update(r0, s as int, 0usize);
        lemma_bfs_init(names@, index@, all_ids@, links@, isas@, r0, s as int);
    }
    rank.set(s, Some(0));
    assert(queue@ == seq![s]);
    let mut h: usize = 0;
    while h < queue.len()
        invariant
            bfs_context(names@, index@, all_ids@, links@, isas@, r0, s as int),
            bfs_inv(names@, index@, links@, isas@, r0, rank@, queue@, h as int, s as int),
            count_none(rank@) + queue@.len() == count_none(r0),
        decreases count_none(rank@), queue.len() - h,
    {
        let u = queue[h];
        let un = &names[u];
        let ghost len0 = queue@.len();
        for k in 0..links.len()
            invariant
                bfs_context(names@, index@, all_ids@, links@, isas@, r0, s as int),
                bfs_inv(names@, index@, links@, isas@, r0, rank@, queue@, h as int, s as int),
                count_none(rank@) + queue@.len() == count_none(r0),
                h < queue.len(),
                queue@[h as int] == u,
                queue@.len() >= len0,
                u < names.len(),
                un == names@[u as int],
                forall|kk: int, y: Seq<char>|
                    0 <= kk < k && #[trigger] link_joins(links@[kk], un@, y) ==> index@.contains_key(y)
                        && rank@[index@[y] as int] is Some,
        {
            let l = &links[k];
            if str_eq(l.from.as_str(), un.as_str()) {
                assert(link_joins(links@[k as int], un@, l.to@));
                bfs_visit(names, index, all_ids, links, isas, rank, &mut queue, h, s, Ghost(r0), &l.to);
            }
            if str_eq(l.to.as_str(), un.as_str()) {
                assert(link_joins(links@[k as int], un@, l.from@));
                bfs_visit(names, index, all_ids, links, isas, rank, &mut queue, h, s, Ghost(r0), &l.from);
            }
        }
        for k in 0..isas.len()
            invariant
                bfs_context(names@, index@, all_ids@, links@, isas@, r0, s as int),
                bfs_inv(names@, index@, links@, isas@, r0, rank@, queue@, h as int, s as int),
                count_none(rank@) + queue@.len() == count_none(r0),
                h < queue.len(),
                queue@[h as int] == u,
                queue@.len() >= len0,
                u < names.len(),
                un == names@[u as int],
                forall|kk: int, y: Seq<char>|
                    0 <= kk < links.len() && #[trigger] link_joins(links@[kk], un@, y) ==> index@.contains_key(y)
                        && rank@[index@[y] as int] is Some,
                forall|kk: int, y: Seq<char>|
                    0 <= kk < k && #[trigger] isa_joins(isas@[kk], un@, y) ==> index@.contains_key(y)
                        && rank@[index@[y] as int] is Some,
        {
            let isa = &isas[k];
            let children = &isa.children;
            let parent_is_u = str_eq(isa.parent.as_str(), un.as_str());
            for c in 0..children.len()
                invariant
                    bfs_context(names@, index@, all_ids@, links@, isas@, r0, s as int),
                    bfs_inv(names@, index@, links@, isas@, r0, rank@, queue@, h as int, s as int),
                    count_none(rank@) + queue@.len() == count_none(r0),
                    h < queue.len(),
                    queue@[h as int] == u,
                    queue@.len() >= len0,
                    u < names.len(),
                    un == names@[u as int],
                    k < isas.len(),
                    isa == isas@[k as int],
                    children == isa.children,
                    parent_is_u == (isa.parent@ == un@),
                    forall|kk: int, y: Seq<char>|
                        0 <= kk < links.len() && #[trigger] link_joins(links@[kk], un@, y) ==> index@.contains_key(y)
                            && rank@[index@[y] as int] is Some,
                    forall|kk: int, y: Seq<char>|
                        0 <= kk < k && #[trigger] isa_joins(isas@[kk], un@, y) ==> index@.contains_key(y)
                            && rank@[index@[y] as int] is Some,
                    forall|cc: int|
                        0 <= cc < c ==> (parent_is_u ==> index@.contains_key((#[trigger] children@[cc])@)
                            && rank@[index@[children@[cc]@] as int] is Some) && (children@[cc]@ == un@
                            ==> index@.contains_key(isa.parent@) && rank@[index@[isa.parent@] as int] is Some),
            {
                if parent_is_u {
                    assert(isa_joins(isas@[k as int], un@, children@[c as int]@));
                    assert(adjacent(links@, isas@, un@, children@[c as int]@));
                    bfs_visit(names, index, all_ids, links, isas, rank, &mut queue, h, s, Ghost(r0), &children[c]);
                }
                if str_eq(children[c].as_str(), un.as_str()) {
                    assert(isa_joins(isas@[k as int], un@, isa.parent@));
                    assert(adjacent(links@, isas@, un@, isa.parent@));
                    bfs_visit(names, index, all_ids, links, isas, rank, &mut queue, h, s, Ghost(r0), &isa.parent);
                }
            }
            assert forall|kk: int, y: Seq<char>|
                0 <= kk < k + 1 && #[trigger] isa_joins(isas@[kk], un@, y) implies index@.contains_key(y)
                && rank@[index@[y] as int] is Some by {
                if kk == k {
                    let c = choose|c: int|
                        0 <= c < isas@[kk].children.len() && ((isas@[kk].parent@ == un@
                            && (#[trigger] isas@[kk].children@[c])@ == y) || (isas@[kk].parent@ == y
                            && isas@[kk].children@[c]@ == un@));
                    assert(children@[c] == isas@[kk].children@[c]);
                }
            }
        }
        proof {
            assert forall|y: Seq<char>|
                #[trigger] adjacent(links@, isas@, names@[queue@[h as int] as int]@, y) implies index@.contains_key(y)
                && rank@[index@[y] as int] is Some by {
                if exists|k: int| 0 <= k < links@.len() && link_joins(#[trigger] links@[k], un@, y) {
                    let k = choose|k: int| 0 <= k < links@.len() && link_joins(#[trigger] links@[k], un@, y);
                } else {
                    let k = choose|k: int| 0 <= k < isas@.len() && isa_joins(#[trigger] isas@[k], un@, y);
                }
            }
            lemma_bfs_advance(names@, index@, all_ids@, links@, isas@, r0, rank@, queue@, h as int, s as int);
        }
        h = h + 1;
    }
    proof {
        assert forall|y: Seq<char>, e: nat|
            #[trigger] within(links@, isas@, names@[s as int]@, y, e) implies index@.contains_key(y)
            && rank@[index@[y] as int] is Some by {
            lemma_bfs_complete(names@, index@, all_ids@, links@, isas@, r0, rank@, queue@, s as int, y, e);
        }
        assert forall|j: int|
            0 <= j < r0.len() && #[trigger] rank@[j] is Some && r0[j] is None implies is_distance(
            links@,
            isas@,
            names@[s as int]@,
            names@[j]@,
            rank@[j]->0 as nat,
        ) by {
            assert(queue@.contains(j as usize));
            let t = choose|t: int| 0 <= t < queue@.len() && queue@[t] == j as usize;
            assert(is_distance(links@, isas@, names@[s as int]@, names@[queue@[t] as int]@, rank@[queue@[t] as int]->0 as nat));
        }
    }
}

// ---------------------------------------------------------------------------
// Ranks of all components
// ---------------------------------------------------------------------------

/// Every rank is the distance from the root of its component.
pub open spec fn ranks_rooted(
    names: Seq<String>,
    all_ids: Seq<String>,
    links: Seq<ErdLink>,
    isas: Seq<ErdIsa>,
    r: Seq<Option<usize>>,
) -> bool {
    forall|i: int|
        0 <= i < names.len() && #[trigger] r[i] is Some ==> exists|p: int|
            #[trigger] is_rank_root(all_ids, links, isas, p, names[i]@) && is_distance(
                links,
                isas,
                all_ids[p]@,
                names[i]@,
                r[i]->0 as nat,
            )
}

/// Ranks every entity, relationship and attribute of an ERD: components
/// are ranked one after another, each from the declared id that has the
/// fewest incoming edges (the first declared among equals), by
/// breadth-first distance from it over links and ISAs in either
/// direction.
pub fn assign_ranks(all_ids: &[String], links: &[ErdLink], isas: &[ErdIsa]) -> (res: NameTable<usize>)
    ensures
        erd_ranks(all_ids@, links@, isas@, res@),
{
    let (names, index) = number_nodes(all_ids, links, isas);
    let n = names.len();
    let mut rank: Vec<Option<usize>> = Vec::new();
    for i in 0..n
        invariant
            rank.len() == i,
            forall|j: int| 0 <= j < i ==> #[trigger] rank@[j] is None,
    {
        rank.push(None);
    }
    let mut pos_node: Vec<usize> = Vec::new();
    let mut degs: Vec<u128> = Vec::new();
    for p in 0..all_ids.len()
        invariant
            index_ok(names@, index@),
            covers_graph(index@, all_ids@, links@, isas@),
            n == names.len(),
            pos_node.len() == p,
            degs.len() == p,
            forall|q: int|
                0 <= q < p ==> #[trigger] pos_node@[q] == index@[all_ids@[q]@] && pos_node@[q] < n
                    && degs@[q] == in_degree(links@, isas@, all_ids@[q]@),
    {
        let i = match index.get(all_ids[p].as_str()) {
            Some(i) => *i,
            None => 0,
        };
        pos_node.push(i);
        degs.push(in_degree_exec(links, isas, all_ids[p].as_str()));
    }
    loop
        invariant
            index_ok(names@, index@),
            covers_graph(index@, all_ids@, links@, isas@),
            n == names.len(),
            rank.len() == n,
            pos_node.len() == all_ids.len(),
            degs.len() == all_ids.len(),
            forall|q: int|
                0 <= q < all_ids.len() ==> #[trigger] pos_node@[q] == index@[all_ids@[q]@] && pos_node@[q]
                    < n && degs@[q] == in_degree(links@, isas@, all_ids@[q]@),
            closed(names@, index@, links@, isas@, rank@),
            ranks_rooted(names@, all_ids@, links@, isas@, rank@),
        ensures
            forall|q: int| 0 <= q < all_ids.len() ==> rank@[#[trigger] pos_node@[q] as int] is Some,
            closed(names@, index@, links@, isas@, rank@),
            ranks_rooted(names@, all_ids@, links@, isas@, rank@),
            rank.len() == n,
        decreases count_none(rank@),
    {
        match select_start(&pos_node, &degs, &rank) {
            None => {
                break ;
            },
            Some(p) => {
                let s = pos_node[p];
                let ghost r0 = rank@;
                assert(names@[s as int]@ == all_ids@[p as int]@);
                bfs(&names, &index, all_ids, links, isas, &mut rank, s);
                proof {
                    lemma_after_bfs(names@, index@, all_ids@, links@, isas@, pos_node@, degs@, r0, rank@, p as int);
                }
            },
        }
    }
    let mut res: NameTable<usize> = NameTable::new();
    for i in 0..n
        invariant
            index_ok(names@, index@),
            n == names.len(),
            rank.len() == n,
            forall|x: Seq<char>|
                #[trigger] res@.contains_key(x) <==> exists|j: int|
                    0 <= j < i && names@[j]@ == x && #[trigger] rank@[j] is Some,
            forall|j: int|
                0 <= j < i && #[trigger] rank@[j] is Some ==> res@.contains_key(names@[j]@) && res@[names@[j]@]
                    == rank@[j]->0,
    {
        match rank[i] {
            Some(r) => {
                let ghost before = res@;
                res.insert(names[i].clone(), r);
                assert forall|j: int|
                    0 <= j < i + 1 && #[trigger] rank@[j] is Some implies res@.contains_key(names@[j]@)
                    && res@[names@[j]@] == rank@[j]->0 by {
                    if j < i {
                        assert(names@[j]@ != names@[i as int]@) by {
                            assert(index@[names@[j]@] == j);
                        }
                    }
                }
                assert forall|x: Seq<char>|
                    #[trigger] res@.contains_key(x) implies exists|j: int|
                        0 <= j < i + 1 && names@[j]@ == x && #[trigger] rank@[j] is Some by {
                    if x == names@[i as int]@ {
                        assert(rank@[i as int] is Some);
                    } else {
                        assert(before.contains_key(x));
                    }
                }
            },
            None => {},
        }
    }
    proof {
        lemma_final_ranks(names@, index@, all_ids@, links@, isas@, pos_node@, rank@, res@);
    }
    res
}

proof fn lemma_after_bfs(
    names: Seq<String>,
    m: Map<Seq<char>, usize>,
    all_ids: Seq<String>,
    links: Seq<ErdLink>,
    isas: Seq<ErdIsa>,
    pos_node: Seq<usize>,
    degs: Seq<u128>,
    r0: Seq<Option<usize>>,
    r: Seq<Option<usize>>,
    p: int,
)
    requires
        index_ok(names, m),
        covers_graph(m, all_ids, links, isas),
        r0.len() == names.len(),
        r.len() == names.len(),
        pos_node.len() == all_ids.len(),
        degs.len() == all_ids.len(),
        forall|q: int|
            0 <= q < all_ids.len() ==> #[trigger] pos_node[q] == m[all_ids[q]@] && pos_node[q] < names.len()
                && degs[q] == in_degree(links, isas, all_ids[q]@),
        closed(names, m, links, isas, r0),
        ranks_rooted(names, all_ids, links, isas, r0),
        0 <= p < all_ids.len(),
        r0[pos_node[p] as int] is None,
        forall|q: int|
            0 <= q < pos_node.len() && r0[#[trigger] pos_node[q] as int] is None ==> !(degs[q]
                < degs[p] || (degs[q] == degs[p] && q < p)),
        forall|j: int| 0 <= j < r0.len() && r0[j] is Some ==> #[trigger] r[j] == r0[j],
        forall|j: int|
            0 <= j < r0.len() && #[trigger] r[j] is Some && r0[j] is None ==> is_distance(
                links,
                isas,
                names[pos_node[p] as int]@,
                names[j]@,
                r[j]->0 as nat,
            ),
        forall|y: Seq<char>, e: nat|
            #[trigger] within(links, isas, names[pos_node[p] as int]@, y, e) ==> m.contains_key(y)
                && r[m[y] as int] is Some,
    ensures
        closed(names, m, links, isas, r),
        ranks_rooted(names, all_ids, links, isas, r),
{
    let s = pos_node[p] as int;
    assert(names[s]@ == all_ids[p]@);
    assert forall|i: int, y: Seq<char>|
        0 <= i < names.len() && r[i] is Some && #[trigger] connected(links, isas, names[i]@, y) implies m.contains_key(y)
        && r[m[y] as int] is Some by {
        let k = choose|k: nat| #[trigger] within(links, isas, names[i]@, y, k);
        if r0[i] is Some {
            assert(m.contains_key(y) && r0[m[y] as int] is Some);
        } else {
            assert(is_distance(links, isas, names[s]@, names[i]@, r[i]->0 as nat));
            lemma_within_trans(links, isas, names[s]@, names[i]@, y, r[i]->0 as nat, k);
        }
    }
    assert forall|i: int| 0 <= i < names.len() && #[trigger] r[i] is Some implies exists|pp: int|
        #[trigger] is_rank_root(all_ids, links, isas, pp, names[i]@) && is_distance(
            links,
            isas,
            all_ids[pp]@,
            names[i]@,
            r[i]->0 as nat,
        ) by {
        if r0[i] is Some {
            assert(r[i] == r0[i]);
        } else {
            let x = names[i]@;
            assert(is_distance(links, isas, all_ids[p]@, x, r[i]->0 as nat));
            assert(connected(links, isas, all_ids[p]@, x));
            assert forall|q: int|
                0 <= q < all_ids.len() && #[trigger] connected(links, isas, all_ids[q]@, x) implies !starts_before(
                all_ids,
                links,
                isas,
                q,
                p,
            ) by {
                if starts_before(all_ids, links, isas, q, p) {
                    let sq = pos_node[q] as int;
                    assert(names[sq]@ == all_ids[q]@);
                    assert(r0[sq] is Some);
                    assert(m.contains_key(x) && r0[m[x] as int] is Some);
                    assert(m[x] == i);
                }
            }
            assert(is_rank_root(all_ids, links, isas, p, x));
        }
    }
}

proof fn lemma_final_ranks(
    names: Seq<String>,
    m: Map<Seq<char>, usize>,
    all_ids: Seq<String>,
    links: Seq<ErdLink>,
    isas: Seq<ErdIsa>,
    pos_node: Seq<usize>,
    r: Seq<Option<usize>>,
    res: Map<Seq<char>, usize>,
)
    requires
        index_ok(names, m),
        covers_graph(m, all_ids, links, isas),
        r.len() == names.len(),
        pos_node.len() == all_ids.len(),
        forall|q: int|
            0 <= q < all_ids.len() ==> #[trigger] pos_node[q] == m[all_ids[q]@] && pos_node[q] < names.len(),
        forall|q: int| 0 <= q < all_ids.len() ==> r[#[trigger] pos_node[q] as int] is Some,
        closed(names, m, links, isas, r),
        ranks_rooted(names, all_ids, links, isas, r),
        forall|x: Seq<char>|
            #[trigger] res.contains_key(x) <==> exists|j: int|
                0 <= j < names.len() && names[j]@ == x && #[trigger] r[j] is Some,
        forall|j: int|
            0 <= j < names.len() && #[trigger] r[j] is Some ==> res.contains_key(names[j]@) && res[names[j]@]
                == r[j]->0,
    ensures
        erd_ranks(all_ids, links, isas, res),
{
    assert forall|x: Seq<char>|
        #[trigger] res.contains_key(x) <==> exists|p: int|
            0 <= p < all_ids.len() && #[trigger] connected(links, isas, all_ids[p]@, x) by {
        if res.contains_key(x) {
            let j = choose|j: int| 0 <= j < names.len() && names[j]@ == x && #[trigger] r[j] is Some;
            let p = choose|p: int|
                #[trigger] is_rank_root(all_ids, links, isas, p, names[j]@) && is_distance(
                    links,
                    isas,
                    all_ids[p]@,
                    names[j]@,
                    r[j]->0 as nat,
                );
            assert(connected(links, isas, all_ids[p]@, x));
        }
        if exists|p: int| 0 <= p < all_ids.len() && #[trigger] connected(links, isas, all_ids[p]@, x) {
            let p = choose|p: int| 0 <= p < all_ids.len() && #[trigger] connected(links, isas, all_ids[p]@, x);
            let s = pos_node[p] as int;
            assert(names[s]@ == all_ids[p]@);
            assert(r[s] is Some);
            assert(m.contains_key(x) && r[m[x] as int] is Some);
            assert(names[m[x] as int]@ == x);
        }
    }
    assert forall|x: Seq<char>| #[trigger] res.contains_key(x) implies exists|p: int|
        #[trigger] is_rank_root(all_ids, links, isas, p, x) && is_distance(
            links,
            isas,
            all_ids[p]@,
            x,
            res[x] as nat,
        ) by {
        let j = choose|j: int| 0 <= j < names.len() && names[j]@ == x && #[trigger] r[j] is Some;
        assert(res[names[j]@] == r[j]->0);
    }
}

/// Neighbours are ranked one rank apart at most: when an entity is
/// ranked, so is each of its neighbours, and the neighbour's rank is at
/// most one more than its own.
pub proof fn lemma_neighbour_ranks(
    all_ids: Seq<String>,
    links: Seq<ErdLink>,
    isas: Seq<ErdIsa>,
    m: Map<Seq<char>, usize>,
    x: Seq<char>,
    y: Seq<char>,
)
    requires
        erd_ranks(all_ids, links, isas, m),
        m.contains_key(x),
        adjacent(links, isas, x, y),
    ensures
        m.contains_key(y),
        m[y] <= m[x] + 1,
{
    let p = choose|p: int|
        #[trigger] is_rank_root(all_ids, links, isas, p, x) && is_distance(
            links,
            isas,
            all_ids[p]@,
            x,
            m[x] as nat,
        );
    let root = all_ids[p]@;
    lemma_within_step(links, isas, root, x, y, m[x] as nat);
    assert(connected(links, isas, root, y));
    assert(m.contains_key(y));
    let p2 = choose|p2: int|
        #[trigger] is_rank_root(all_ids, links, isas, p2, y) && is_distance(
            links,
            isas,
            all_ids[p2]@,
            y,
            m[y] as nat,
        );
    // both components start at the same declared id
    let k2 = choose|k: nat| #[trigger] within(links, isas, all_ids[p2]@, y, k);
    lemma_adjacent_sym(links, isas, x, y);
    lemma_within_step(links, isas, all_ids[p2]@, y, x, k2);
    assert(connected(links, isas, all_ids[p2]@, x));
    assert(!starts_before(all_ids, links, isas, p2, p));
    assert(!starts_before(all_ids, links, isas, p, p2));
    assert(p == p2);
    if m[y] > m[x] + 1 {
        lemma_within_mono(links, isas, root, y, (m[x] + 1) as nat, (m[y] - 1) as nat);
    }
}

/// An entity without links or ISAs sits on the first rank.
pub proof fn lemma_isolated_rank_zero(
    all_ids: Seq<String>,
    links: Seq<ErdLink>,
    isas: Seq<ErdIsa>,
    m: Map<Seq<char>, usize>,
    x: Seq<char>,
)
    requires
        erd_ranks(all_ids, links, isas, m),
        m.contains_key(x),
        forall|y: Seq<char>| !#[trigger] adjacent(links, isas, x, y),
    ensures
        m[x] == 0,
{
    let p = choose|p: int|
        #[trigger] is_rank_root(all_ids, links, isas, p, x) && is_distance(
            links,
            isas,
            all_ids[p]@,
            x,
            m[x] as nat,
        );
    let root = all_ids[p]@;
    let d = m[x] as nat;
    if d > 0 {
        let w = choose|w: Seq<Seq<char>>|
            #[trigger] is_walk(links, isas, w) && w[0] == root && w.last() == x && w.len() <= d + 1;
        if w.len() == 1 {
            lemma_within_refl(links, isas, x);
            lemma_within_mono(links, isas, root, x, 0, (d - 1) as nat);
        } else {
            let j = w.len() - 2;
            assert(adjacent(links, isas, w[j], w[j + 1]));
            lemma_adjacent_sym(links, isas, w[j], x);
        }
    }
}


/// Edge an ERD link becomes: between the link's ends, labelled with its
/// cardinality, two ranks long and visible.
pub open spec fn erd_link_edge(link: ErdLink) -> EdgeView {
    (link.from@, link.to@, Some(link.cardinality@), 2u32, false)
}

/// Graph edges of an ERD: one per link, in the links' order.
pub fn erd_link_edges(links: &[ErdLink]) -> (res: Vec<LayoutEdge>)
    ensures
        edge_views(res@) == links@.map_values(|l: ErdLink| erd_link_edge(l)),
{
    let mut edges: Vec<LayoutEdge> = Vec::new();
    for k in 0..links.len()
        invariant
            edge_views(edges@) == links@.take(k as int).map_values(|l: ErdLink| erd_link_edge(l)),
    {
        let link = &links[k];
        let edge = LayoutEdge {
            from: link.from.clone(),
            to: link.to.clone(),
            label: Some(link.cardinality.clone()),
            minlen: 2,
            invisible: false,
        };
        let ghost prev = edges@;
        edges.push(edge);
        assert(edge_views(edges@) =~= edge_views(prev).push(edge_view(edge)));
        assert(links@.take(k + 1) =~= links@.take(k as int).push(links@[k as int]));
        assert(edge_views(edges@) =~= links@.take(k + 1).map_values(|l: ErdLink| erd_link_edge(l)));
    }
    assert(links@.take(links.len() as int) =~= links@);
    edges
}

} // verus!
