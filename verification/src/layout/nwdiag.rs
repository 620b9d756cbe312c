//! Network-diagram rules: server labels and the column order of servers.
use vstd::prelude::*;

use crate::model::{NwdiagDiagram, NwdiagNetwork, ServerRef, opt_view};
use crate::text::{append_chars, chars_of, contains_name, string_of, string_views};

verus! {

/// `"\n"` followed by the line, when there is one.
pub open spec fn extra_line(o: Option<Seq<char>>) -> Seq<char> {
    match o {
        Some(l) => seq!['\n'] + l,
        None => Seq::empty(),
    }
}

/// Label of a server: its name, then its address and its description on
/// lines of their own when present.
pub open spec fn server_label_text(s: ServerRef) -> Seq<char> {
    s.name@ + extra_line(opt_view(s.address)) + extra_line(opt_view(s.description))
}

fn push_line(v: &mut Vec<char>, line: &Option<String>)
    ensures
        final(v)@ == old(v)@ + extra_line(opt_view(*line)),
{
    match line {
        Some(l) => {
            v.push('\n');
            let lv = chars_of(l.as_str());
            append_chars(v, &lv);
        },
        None => {},
    }
}

/// The label drawn in a server box.
pub fn server_label(server: &ServerRef) -> (res: String)
    ensures
        res@ == server_label_text(*server),
{
    let mut v = chars_of(server.name.as_str());
    push_line(&mut v, &server.address);
    push_line(&mut v, &server.description);
    string_of(&v)
}

/// Names of the servers of each network, network after network.
pub open spec fn network_server_names(nets: Seq<NwdiagNetwork>) -> Seq<Seq<char>>
    decreases nets.len(),
{
    if nets.len() == 0 {
        Seq::empty()
    } else {
        network_server_names(nets.drop_last()) + server_names(nets.last().servers@)
    }
}

/// Names of servers.
pub open spec fn server_names(servers: Seq<ServerRef>) -> Seq<Seq<char>> {
    servers.map_values(|s: ServerRef| s.name@)
}

/// The first occurrence of each name, in order of first occurrence.
pub open spec fn first_occurrences(s: Seq<Seq<char>>) -> Seq<Seq<char>>
    decreases s.len(),
{
    if s.len() == 0 {
        Seq::empty()
    } else {
        let prev = first_occurrences(s.drop_last());
        if s.drop_last().contains(s.last()) {
            prev
        } else {
            prev.push(s.last())
        }
    }
}

/// Keeping first occurrences keeps exactly the names that occur.
pub proof fn lemma_first_occurrences_contains(s: Seq<Seq<char>>, x: Seq<char>)
    ensures
        first_occurrences(s).contains(x) <==> s.contains(x),
    decreases s.len(),
{
    if s.len() > 0 {
        let d = s.drop_last();
        let l = s.last();
        lemma_first_occurrences_contains(d, x);
        lemma_push_contains(d, l, x);
        assert(s =~= d.push(l));
        let prev = first_occurrences(d);
        if !d.contains(l) {
            lemma_push_contains(prev, l, x);
        }
    }
}

/// Membership after appending one element.
pub proof fn lemma_push_contains(d: Seq<Seq<char>>, l: Seq<char>, x: Seq<char>)
    ensures
        d.push(l).contains(x) <==> (d.contains(x) || l == x),
{
    if d.push(l).contains(x) {
        let j = choose|j: int| 0 <= j < d.push(l).len() && d.push(l)[j] == x;
        if j < d.len() {
            assert(d[j] == x);
        }
    }
    if d.contains(x) {
        let j = choose|j: int| 0 <= j < d.len() && d[j] == x;
        assert(d.push(l)[j] == x);
    }
    if l == x {
        assert(d.push(l)[d.len() as int] == x);
    }
}

/// Keeping first occurrences gives a sequence without repetitions.
pub proof fn lemma_first_occurrences_distinct(s: Seq<Seq<char>>)
    ensures
        crate::name_table::distinct_names(first_occurrences(s)),
    decreases s.len(),
{
    if s.len() > 0 {
        lemma_first_occurrences_distinct(s.drop_last());
        lemma_first_occurrences_contains(s.drop_last(), s.last());
    }
}

/// Server names in order of first appearance across all networks.
pub fn ordered_server_names(diagram: &NwdiagDiagram) -> (res: Vec<String>)
    ensures
        string_views(res@) == first_occurrences(network_server_names(diagram.networks@)),
{
    let mut names: Vec<String> = Vec::new();
    let nets = &diagram.networks;
    for i in 0..nets.len()
        invariant
            string_views(names@) == first_occurrences(network_server_names(nets@.take(i as int))),
    {
        let servers = &nets[i].servers;
        let ghost before = network_server_names(nets@.take(i as int));
        assert(server_names(servers@).take(0) =~= Seq::<Seq<char>>::empty());
        assert(before + server_names(servers@).take(0) =~= before);
        for j in 0..servers.len()
            invariant
                servers == nets@[i as int].servers,
                string_views(names@) == first_occurrences(
                    before + server_names(servers@).take(j as int),
                ),
        {
            let ghost prefix = before + server_names(servers@).take(j as int);
            let ghost next = before + server_names(servers@).take(j + 1);
            assert(next.drop_last() =~= prefix);
            assert(next.last() == servers@[j as int].name@);
            proof {
                lemma_first_occurrences_contains(prefix, servers@[j as int].name@);
            }
            if !contains_name(&names, servers[j].name.as_str()) {
                names.push(servers[j].name.clone());
                assert(string_views(names@) =~= first_occurrences(prefix).push(next.last()));
            }
        }
        assert(nets@.take(i + 1).drop_last() =~= nets@.take(i as int));
        assert(server_names(servers@).take(servers.len() as int) =~= server_names(servers@));
    }
    assert(nets@.take(nets.len() as int) =~= nets@);
    names
}

/// Server columns: every server name of the diagram gets exactly one
/// column, and a column belongs to a name of the diagram.
pub proof fn lemma_server_columns(diagram: NwdiagDiagram)
    ensures
        crate::name_table::distinct_names(
            first_occurrences(network_server_names(diagram.networks@)),
        ),
        forall|x: Seq<char>|
            #[trigger] first_occurrences(network_server_names(diagram.networks@)).contains(x)
                <==> network_server_names(diagram.networks@).contains(x),
{
    lemma_first_occurrences_distinct(network_server_names(diagram.networks@));
    assert forall|x: Seq<char>|
        #[trigger] first_occurrences(network_server_names(diagram.networks@)).contains(x)
            <==> network_server_names(diagram.networks@).contains(x) by {
        lemma_first_occurrences_contains(network_server_names(diagram.networks@), x);
    }
}

} // verus!
