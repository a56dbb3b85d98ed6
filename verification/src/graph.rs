use vstd::prelude::*;
use crate::model::{GraphEdge, GraphNode, TypstFile};
use crate::paths::{
    deck_for_path, file_name, normalize_link, spec_deck_for_path, spec_file_name,
    spec_normalize_link,
};
use crate::text::{
    chars_eq, chars_of, ends_with, insert_sorted, strictly_sorted, views_of,
};

verus! {

broadcast use vstd::string::group_string_axioms;

/// Position of the first `c` in `s`, or -1.
pub open spec fn index_of(s: Seq<char>, c: char) -> int
    decreases s.len(),
{
    if s.len() == 0 {
        -1
    } else if s[0] == c {
        0
    } else {
        let k = index_of(s.drop_first(), c);
        if k < 0 {
            -1
        } else {
            k + 1
        }
    }
}

pub proof fn lemma_index_of(s: Seq<char>, c: char)
    ensures
        -1 <= index_of(s, c) < s.len(),
        index_of(s, c) >= 0 ==> s[index_of(s, c)] == c,
        forall|j: int| 0 <= j < s.len() && (index_of(s, c) < 0 || j < index_of(s, c)) ==> s[j] != c,
    decreases s.len(),
{
    if s.len() > 0 && s[0] != c {
        lemma_index_of(s.drop_first(), c);
        assert forall|j: int| 0 <= j < s.len() && (index_of(s, c) < 0 || j < index_of(s, c)) implies s[j] != c by {
            if j > 0 {
                assert(s[j] == s.drop_first()[j - 1]);
            }
        }
    }
}

/// The quoted `.typ` paths of a source, as the regex `"([^"]+\.typ)"` finds them: from
/// each opening quote, the text up to the next quote is taken when it is a name followed by
/// `.typ`, and the search goes on after the closing quote; otherwise it goes on from that
/// next quote.
pub open spec fn spec_typ_links(s: Seq<char>) -> Seq<Seq<char>>
    decreases s.len(),
{
    let i = index_of(s, '"');
    if i < 0 {
        Seq::empty()
    } else {
        proof {
            lemma_index_of(s, '"');
        }
        let rest = s.skip(i + 1);
        let j = index_of(rest, '"');
        if j < 0 {
            Seq::empty()
        } else {
            proof {
                lemma_index_of(rest, '"');
            }
            let content = rest.take(j);
            if content.len() >= 5 && ends_with(content, ".typ"@) {
                seq![content] + spec_typ_links(rest.skip(j + 1))
            } else {
                spec_typ_links(rest)
            }
        }
    }
}

/// The first capture group of each match of `"([^"]+\.typ)"` in `source`, in order
/// (`regex::Regex::new`, then `captures_iter`). The contract states the leftmost-first,
/// non-overlapping matches of that pattern as `spec_typ_links` spells them out.
#[verifier::external_body]
fn quoted_typ_links(source: &str) -> (r: Vec<String>)
    ensures
        views_of(r@) == spec_typ_links(source@),
{
    let re = regex::Regex::new(r#""([^"]+\.typ)""#).expect("valid regex");
    re.captures_iter(source).map(|cap| cap[1].to_string()).collect()
}

/// The file that holds shared definitions; it is no note of the graph.
pub open spec fn setup_path() -> Seq<char> {
    "setup.typ"@
}

/// The paths of the notes: every file path but `setup.typ`.
pub open spec fn note_paths(files: Seq<TypstFile>) -> Set<Seq<char>> {
    Set::new(
        |p: Seq<char>|
            p != setup_path() && exists|i: int| 0 <= i < files.len() && #[trigger] files[i].path@ == p,
    )
}

/// An edge as (source path, target path).
pub open spec fn edge_views(v: Seq<GraphEdge>) -> Seq<(Seq<char>, Seq<char>)> {
    Seq::new(v.len(), |i: int| (v[i].source@, v[i].target@))
}

/// The edges that the links of the file at `src` give: each link resolved against the
/// file's directory, kept when it names a note.
pub open spec fn link_edges(src: Seq<char>, links: Seq<Seq<char>>, paths: Set<Seq<char>>) -> Seq<
    (Seq<char>, Seq<char>),
>
    decreases links.len(),
{
    if links.len() == 0 {
        Seq::empty()
    } else {
        let e = link_edges(src, links.drop_last(), paths);
        match spec_normalize_link(src, links.last()) {
            Some(t) => if paths.contains(t) {
                e.push((src, t))
            } else {
                e
            },
            None => e,
        }
    }
}

/// The edges of all notes, file by file in order.
pub open spec fn graph_edges(files: Seq<TypstFile>, paths: Set<Seq<char>>) -> Seq<
    (Seq<char>, Seq<char>),
>
    decreases files.len(),
{
    if files.len() == 0 {
        Seq::empty()
    } else {
        let e = graph_edges(files.drop_last(), paths);
        let f = files.last();
        if paths.contains(f.path@) {
            e + link_edges(f.path@, spec_typ_links(f.source@), paths)
        } else {
            e
        }
    }
}

/// Number of edges that end at `p`.
pub open spec fn count_targets(edges: Seq<(Seq<char>, Seq<char>)>, p: Seq<char>) -> nat
    decreases edges.len(),
{
    if edges.len() == 0 {
        0
    } else {
        count_targets(edges.drop_last(), p) + if edges.last().1 == p {
            1nat
        } else {
            0nat
        }
    }
}

/// Number of edges that start at `p`.
pub open spec fn count_sources(edges: Seq<(Seq<char>, Seq<char>)>, p: Seq<char>) -> nat
    decreases edges.len(),
{
    if edges.len() == 0 {
        0
    } else {
        count_sources(edges.drop_last(), p) + if edges.last().0 == p {
            1nat
        } else {
            0nat
        }
    }
}

/// The node ids, in order.
pub open spec fn node_ids(v: Seq<GraphNode>) -> Seq<Seq<char>> {
    Seq::new(v.len(), |i: int| v[i].id@)
}

/// The note graph of a workspace: nodes for the note paths in sorted order, each with
/// its name, deck and link counts; edges for every quoted `.typ` link of a note that
/// resolves to another note.
pub open spec fn graph_correct(files: Seq<TypstFile>, nodes: Seq<GraphNode>, edges: Seq<GraphEdge>) -> bool {
    let paths = note_paths(files);
    let ev = edge_views(edges);
    &&& ev == graph_edges(files, paths)
    &&& strictly_sorted(node_ids(nodes))
    &&& node_ids(nodes).to_set() == paths
    &&& forall|i: int|
        0 <= i < nodes.len() ==> {
            let n = #[trigger] nodes[i];
            &&& n.label@ == spec_file_name(n.id@)
            &&& n.directory@ == spec_deck_for_path(n.id@)
            &&& n.inbound == count_targets(ev, n.id@)
            &&& n.outbound == count_sources(ev, n.id@)
        }
}

proof fn lemma_link_edges_in(src: Seq<char>, links: Seq<Seq<char>>, paths: Set<Seq<char>>)
    ensures
        forall|i: int| 0 <= i < link_edges(src, links, paths).len() ==> (#[trigger] link_edges(src, links, paths)[i]).0 == src
            && paths.contains(link_edges(src, links, paths)[i].1),
    decreases links.len(),
{
    if links.len() > 0 {
        let e = link_edges(src, links.drop_last(), paths);
        lemma_link_edges_in(src, links.drop_last(), paths);
        assert forall|i: int| 0 <= i < link_edges(src, links, paths).len() implies (#[trigger] link_edges(
            src,
            links,
            paths,
        )[i]).0 == src && paths.contains(link_edges(src, links, paths)[i].1) by {
            if i < e.len() {
                assert(link_edges(src, links, paths)[i] == e[i]);
            }
        }
    }
}

proof fn lemma_graph_edges_in(files: Seq<TypstFile>, paths: Set<Seq<char>>)
    ensures
        forall|i: int| 0 <= i < graph_edges(files, paths).len() ==> paths.contains(
            (#[trigger] graph_edges(files, paths)[i]).0,
        ) && paths.contains(graph_edges(files, paths)[i].1),
    decreases files.len(),
{
    if files.len() > 0 {
        let prev = files.drop_last();
        lemma_graph_edges_in(prev, paths);
        let f = files.last();
        if paths.contains(f.path@) {
            let e = graph_edges(prev, paths);
            let l = link_edges(f.path@, spec_typ_links(f.source@), paths);
            lemma_link_edges_in(f.path@, spec_typ_links(f.source@), paths);
            assert forall|i: int| 0 <= i < graph_edges(files, paths).len() implies paths.contains(
                (#[trigger] graph_edges(files, paths)[i]).0,
            ) && paths.contains(graph_edges(files, paths)[i].1) by {
                if i < e.len() {
                    assert(graph_edges(files, paths)[i] == e[i]);
                } else {
                    assert(graph_edges(files, paths)[i] == l[i - e.len()]);
                }
            }
        }
    }
}

/// Every edge of the graph joins two of its nodes: links to files that are not loaded,
/// or to `setup.typ`, give no edge.
pub proof fn lemma_edges_join_nodes(files: Seq<TypstFile>, nodes: Seq<GraphNode>, edges: Seq<GraphEdge>)
    requires
        graph_correct(files, nodes, edges),
    ensures
        forall|i: int| 0 <= i < edges.len() ==> node_ids(nodes).contains((#[trigger] edges[i]).source@)
            && node_ids(nodes).contains(edges[i].target@),
        forall|i: int| 0 <= i < edges.len() ==> (#[trigger] edges[i]).target@ != setup_path(),
{
    let paths = note_paths(files);
    lemma_graph_edges_in(files, paths);
    assert forall|i: int| 0 <= i < edges.len() implies node_ids(nodes).contains((#[trigger] edges[i]).source@)
        && node_ids(nodes).contains(edges[i].target@) && edges[i].target@ != setup_path() by {
        assert(edge_views(edges)[i] == (edges[i].source@, edges[i].target@));
        assert(paths.contains(edges[i].source@));
        assert(paths.contains(edges[i].target@));
        assert(node_ids(nodes).to_set().contains(edges[i].source@));
        assert(node_ids(nodes).to_set().contains(edges[i].target@));
    }
}

/// The in-degrees of the nodes added up.
pub open spec fn sum_inbound(nodes: Seq<GraphNode>) -> nat
    decreases nodes.len(),
{
    if nodes.len() == 0 {
        0
    } else {
        sum_inbound(nodes.drop_last()) + nodes.last().inbound as nat
    }
}

/// The out-degrees of the nodes added up.
pub open spec fn sum_outbound(nodes: Seq<GraphNode>) -> nat
    decreases nodes.len(),
{
    if nodes.len() == 0 {
        0
    } else {
        sum_outbound(nodes.drop_last()) + nodes.last().outbound as nat
    }
}

/// Edges ending (`targets`) or starting at the given paths, added up over the paths.
spec fn count_over(edges: Seq<(Seq<char>, Seq<char>)>, ps: Seq<Seq<char>>, targets: bool) -> nat
    decreases ps.len(),
{
    if ps.len() == 0 {
        0
    } else {
        count_over(edges, ps.drop_last(), targets) + if targets {
            count_targets(edges, ps.last())
        } else {
            count_sources(edges, ps.last())
        }
    }
}

spec fn end_of(e: (Seq<char>, Seq<char>), targets: bool) -> Seq<char> {
    if targets {
        e.1
    } else {
        e.0
    }
}

/// How many of the paths equal `t`.
spec fn hits(ps: Seq<Seq<char>>, t: Seq<char>) -> nat
    decreases ps.len(),
{
    if ps.len() == 0 {
        0
    } else {
        hits(ps.drop_last(), t) + if ps.last() == t {
            1nat
        } else {
            0nat
        }
    }
}

proof fn lemma_hits_one(ps: Seq<Seq<char>>, t: Seq<char>)
    requires
        strictly_sorted(ps),
        ps.contains(t),
    ensures
        hits(ps, t) == 1,
    decreases ps.len(),
{
    let p = ps.drop_last();
    assert(strictly_sorted(p));
    if ps.last() == t {
        assert(!p.contains(t)) by {
            if p.contains(t) {
                let i = choose|i: int| 0 <= i < p.len() && p[i] == t;
                assert(crate::text::seq_lt(ps[i], ps[ps.len() - 1]));
                crate::text::lemma_seq_lt_irreflexive(t);
            }
        }
        lemma_hits_zero(p, t);
    } else {
        let i = choose|i: int| 0 <= i < ps.len() && ps[i] == t;
        assert(p[i] == t);
        lemma_hits_one(p, t);
    }
}

proof fn lemma_hits_zero(ps: Seq<Seq<char>>, t: Seq<char>)
    requires
        !ps.contains(t),
    ensures
        hits(ps, t) == 0,
    decreases ps.len(),
{
    if ps.len() > 0 {
        let p = ps.drop_last();
        assert(!p.contains(t)) by {
            if p.contains(t) {
                let i = choose|i: int| 0 <= i < p.len() && p[i] == t;
                assert(ps[i] == t);
            }
        }
        assert(ps[ps.len() - 1] != t);
        lemma_hits_zero(p, t);
    }
}

proof fn lemma_count_over_step(edges: Seq<(Seq<char>, Seq<char>)>, ps: Seq<Seq<char>>, targets: bool)
    requires
        edges.len() > 0,
    ensures
        count_over(edges, ps, targets) == count_over(edges.drop_last(), ps, targets) + hits(
            ps,
            end_of(edges.last(), targets),
        ),
    decreases ps.len(),
{
    if ps.len() > 0 {
        lemma_count_over_step(edges, ps.drop_last(), targets);
    }
}

proof fn lemma_count_over_all(edges: Seq<(Seq<char>, Seq<char>)>, ps: Seq<Seq<char>>, targets: bool)
    requires
        strictly_sorted(ps),
        forall|i: int| 0 <= i < edges.len() ==> ps.contains(end_of(#[trigger] edges[i], targets)),
    ensures
        count_over(edges, ps, targets) == edges.len(),
    decreases edges.len(),
{
    if edges.len() == 0 {
        lemma_count_over_empty(edges, ps, targets);
    } else {
        let e = edges.drop_last();
        assert forall|i: int| 0 <= i < e.len() implies ps.contains(end_of(#[trigger] e[i], targets)) by {
            assert(e[i] == edges[i]);
        }
        lemma_count_over_all(e, ps, targets);
        lemma_count_over_step(edges, ps, targets);
        assert(ps.contains(end_of(edges[edges.len() - 1], targets)));
        lemma_hits_one(ps, end_of(edges.last(), targets));
    }
}

proof fn lemma_count_over_empty(edges: Seq<(Seq<char>, Seq<char>)>, ps: Seq<Seq<char>>, targets: bool)
    requires
        edges.len() == 0,
    ensures
        count_over(edges, ps, targets) == 0,
    decreases ps.len(),
{
    if ps.len() > 0 {
        lemma_count_over_empty(edges, ps.drop_last(), targets);
    }
}

proof fn lemma_sums_are_counts(files: Seq<TypstFile>, nodes: Seq<GraphNode>, ev: Seq<(Seq<char>, Seq<char>)>)
    requires
        forall|i: int| 0 <= i < nodes.len() ==> {
            let n = #[trigger] nodes[i];
            &&& n.inbound == count_targets(ev, n.id@)
            &&& n.outbound == count_sources(ev, n.id@)
        },
    ensures
        sum_inbound(nodes) == count_over(ev, node_ids(nodes), true),
        sum_outbound(nodes) == count_over(ev, node_ids(nodes), false),
    decreases nodes.len(),
{
    if nodes.len() > 0 {
        let p = nodes.drop_last();
        assert forall|i: int| 0 <= i < p.len() implies {
            let n = #[trigger] p[i];
            &&& n.inbound == count_targets(ev, n.id@)
            &&& n.outbound == count_sources(ev, n.id@)
        } by {
            assert(p[i] == nodes[i]);
        }
        lemma_sums_are_counts(files, p, ev);
        assert(node_ids(nodes).drop_last() =~= node_ids(p));
        assert(node_ids(nodes).last() == nodes.last().id@);
        assert(nodes[nodes.len() - 1] == nodes.last());
    }
}

/// Every link is counted once where it starts and once where it ends: the in-degrees of
/// the nodes add up to the number of edges, and so do the out-degrees.
pub proof fn lemma_degrees_sum_to_edges(files: Seq<TypstFile>, nodes: Seq<GraphNode>, edges: Seq<GraphEdge>)
    requires
        graph_correct(files, nodes, edges),
    ensures
        sum_inbound(nodes) == edges.len(),
        sum_outbound(nodes) == edges.len(),
{
    let ev = edge_views(edges);
    let ids = node_ids(nodes);
    lemma_edges_join_nodes(files, nodes, edges);
    lemma_sums_are_counts(files, nodes, ev);
    assert forall|i: int| 0 <= i < ev.len() implies ids.contains(end_of(#[trigger] ev[i], true)) by {
        assert(ev[i] == (edges[i].source@, edges[i].target@));
        assert(ids.contains(edges[i].target@));
    }
    assert forall|i: int| 0 <= i < ev.len() implies ids.contains(end_of(#[trigger] ev[i], false)) by {
        assert(ev[i] == (edges[i].source@, edges[i].target@));
        assert(ids.contains(edges[i].source@));
    }
    lemma_count_over_all(ev, ids, true);
    lemma_count_over_all(ev, ids, false);
}

fn is_setup(path: &String) -> (r: bool)
    ensures
        r == (path@ == setup_path()),
{
    let p = chars_of(path.as_str());
    let s = chars_of("setup.typ");
    chars_eq(&p, &s)
}

fn contains_path(paths: &Vec<String>, t: &String) -> (r: bool)
    ensures
        r == views_of(paths@).contains(t@),
{
    let tc = chars_of(t.as_str());
    let mut i: usize = 0;
    while i < paths.len()
        invariant
            i <= paths.len(),
            tc@ == t@,
            forall|k: int| 0 <= k < i ==> views_of(paths@)[k] != t@,
        decreases paths.len() - i,
    {
        let pc = chars_of(paths[i].as_str());
        if chars_eq(&pc, &tc) {
            assert(views_of(paths@)[i as int] == t@);
            return true;
        }
        i += 1;
    }
    false
}

/// Builds the link graph of the notes.
pub fn build_graph(files: &[TypstFile]) -> (r: (Vec<GraphNode>, Vec<GraphEdge>))
    ensures
        graph_correct(files@, r.0@, r.1@),
{
    let ghost paths_set = note_paths(files@);
    // The note paths, sorted, each once.
    let mut paths: Vec<String> = Vec::new();
    let mut i: usize = 0;
    assert(views_of(paths@).to_set() =~= Set::<Seq<char>>::empty());
    while i < files.len()
        invariant
            i <= files.len(),
            strictly_sorted(views_of(paths@)),
            views_of(paths@).to_set() == Set::new(
                |p: Seq<char>|
                    p != setup_path() && exists|k: int|
                        0 <= k < i && #[trigger] files@[k].path@ == p,
            ),
        decreases files.len() - i,
    {
        let ghost before = views_of(paths@).to_set();
        if !is_setup(&files[i].path) {
            insert_sorted(&mut paths, files[i].path.clone());
            assert(views_of(paths@).to_set() =~= Set::new(
                |p: Seq<char>|
                    p != setup_path() && exists|k: int|
                        0 <= k < i + 1 && #[trigger] files@[k].path@ == p,
            )) by {
                assert(files@[i as int].path@ == files[i as int].path@);
            }
        } else {
            assert(views_of(paths@).to_set() =~= Set::new(
                |p: Seq<char>|
                    p != setup_path() && exists|k: int|
                        0 <= k < i + 1 && #[trigger] files@[k].path@ == p,
            ));
        }
        i += 1;
    }
    assert(views_of(paths@).to_set() =~= paths_set);
    // The edges, file by file.
    let mut edges: Vec<GraphEdge> = Vec::new();
    let mut f: usize = 0;
    assert(files@.take(0) =~= Seq::<TypstFile>::empty());
    assert(edge_views(edges@) =~= Seq::<(Seq<char>, Seq<char>)>::empty());
    while f < files.len()
        invariant
            f <= files.len(),
            views_of(paths@).to_set() == paths_set,
            paths_set == note_paths(files@),
            edge_views(edges@) == graph_edges(files@.take(f as int), paths_set),
        decreases files.len() - f,
    {
        let file = &files[f];
        assert(files@.take(f + 1).drop_last() =~= files@.take(f as int));
        assert(files@.take(f + 1).last() == files@[f as int]);
        let ghost base = edge_views(edges@);
        if contains_path(&paths, &file.path) {
            let links = quoted_typ_links(file.source.as_str());
            let mut j: usize = 0;
            assert(views_of(links@).take(0) =~= Seq::<Seq<char>>::empty());
            assert(base + Seq::<(Seq<char>, Seq<char>)>::empty() =~= base);
            while j < links.len()
                invariant
                    j <= links.len(),
                    f < files.len(),
                    file == &files[f as int],
                    views_of(paths@).to_set() == paths_set,
                    edge_views(edges@) == base + link_edges(
                        file.path@,
                        views_of(links@).take(j as int),
                        paths_set,
                    ),
                decreases links.len() - j,
            {
                let ghost lv = views_of(links@).take(j + 1);
                assert(lv.drop_last() =~= views_of(links@).take(j as int));
                assert(lv.last() == links@[j as int]@);
                let ghost before = edge_views(edges@);
                match normalize_link(file.path.as_str(), links[j].as_str()) {
                    Some(target) => {
                        if contains_path(&paths, &target) {
                            assert(views_of(paths@).contains(target@) == paths_set.contains(target@));
                            edges.push(GraphEdge { source: file.path.clone(), target });
                            assert(edge_views(edges@) =~= before.push((file.path@, target@)));
                        } else {
                            assert(views_of(paths@).contains(target@) == paths_set.contains(target@));
                        }
                    },
                    None => {},
                }
                j += 1;
            }
            assert(views_of(links@).take(links.len() as int) =~= views_of(links@));
            assert(views_of(paths@).contains(file.path@) == paths_set.contains(file.path@));
        } else {
            assert(views_of(paths@).contains(file.path@) == paths_set.contains(file.path@));
            assert(base =~= edge_views(edges@));
        }
        f += 1;
    }
    assert(files@.take(files.len() as int) =~= files@);
    let ghost ev = edge_views(edges@);
    // One node per note path.
    let mut nodes: Vec<GraphNode> = Vec::new();
    let mut n: usize = 0;
    while n < paths.len()
        invariant
            n <= paths.len(),
            ev == edge_views(edges@),
            nodes.len() == n,
            forall|k: int| 0 <= k < n ==> (#[trigger] nodes@[k]).id@ == paths@[k]@,
            forall|k: int|
                0 <= k < n ==> {
                    let nd = #[trigger] nodes@[k];
                    &&& nd.label@ == spec_file_name(nd.id@)
                    &&& nd.directory@ == spec_deck_for_path(nd.id@)
                    &&& nd.inbound == count_targets(ev, nd.id@)
                    &&& nd.outbound == count_sources(ev, nd.id@)
                },
        decreases paths.len() - n,
    {
        let id = paths[n].clone();
        let idc = chars_of(id.as_str());
        let mut inbound: usize = 0;
        let mut outbound: usize = 0;
        let mut e: usize = 0;
        while e < edges.len()
            invariant
                e <= edges.len(),
                idc@ == id@,
                ev == edge_views(edges@),
                inbound == count_targets(ev.take(e as int), id@),
                outbound == count_sources(ev.take(e as int), id@),
                inbound <= e,
                outbound <= e,
            decreases edges.len() - e,
        {
            assert(ev.take(e + 1).drop_last() =~= ev.take(e as int));
            assert(ev.take(e + 1).last() == (edges@[e as int].source@, edges@[e as int].target@));
            let tc = chars_of(edges[e].target.as_str());
            if chars_eq(&tc, &idc) {
                inbound += 1;
            }
            let sc = chars_of(edges[e].source.as_str());
            if chars_eq(&sc, &idc) {
                outbound += 1;
            }
            e += 1;
        }
        assert(ev.take(edges.len() as int) =~= ev);
        let label = file_name(id.as_str());
        let directory = deck_for_path(id.as_str());
        nodes.push(GraphNode { id, label, directory, inbound, outbound });
        n += 1;
    }
    assert(node_ids(nodes@) =~= views_of(paths@));
    (nodes, edges)
}

} // verus!
