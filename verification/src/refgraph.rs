//! The reference graph of a project: which document refers to a symbol that
//! which other document declares.

use crate::text::{
    behind, directory, directory_of, lemma_relative_is_injective, relative_to, same_text,
    strip_front,
};
use vstd::prelude::*;

verus! {

/// An edge of the graph: the document `src` refers to a symbol that the
/// document `dst` declares.
#[derive(Debug, PartialEq, Eq, Hash)]
pub struct Connection {
    pub src: String,
    pub dst: String,
}

/// The documents of a list, each by its text.
pub open spec fn names(list: Seq<String>) -> Seq<Seq<char>> {
    list.map_values(|s: String| s@)
}

/// The edges of a list, each by the texts of its two ends.
pub open spec fn links(list: Seq<Connection>) -> Seq<(Seq<char>, Seq<char>)> {
    list.map_values(|c: Connection| (c.src@, c.dst@))
}

/// A list with `x` behind it, unless it holds `x` already.
pub open spec fn with<T>(list: Seq<T>, x: T) -> Seq<T> {
    if list.contains(x) {
        list
    } else {
        list.push(x)
    }
}

/// The edges after a reference from `reference` to a symbol of `symbol` has
/// been recorded: the edge from the one to the other is among them, unless
/// the two are one document.
pub open spec fn with_reference(
    edges: Seq<(Seq<char>, Seq<char>)>,
    reference: Seq<char>,
    symbol: Seq<char>,
) -> Seq<(Seq<char>, Seq<char>)> {
    if reference == symbol {
        edges
    } else {
        with(edges, (reference, symbol))
    }
}

/// Whether no edge leads from a document to itself.
pub open spec fn loop_free(edges: Seq<(Seq<char>, Seq<char>)>) -> bool {
    forall|i: int| 0 <= i < edges.len() ==> (#[trigger] edges[i]).0 != edges[i].1
}

/// The graph as it grows during a run: the documents seen so far and the
/// edges between them.
pub struct ReferenceGraph {
    nodes: Vec<String>,
    edges: Vec<Connection>,
}

/// Whether `x` is in `list`.
fn holds(list: &Vec<String>, x: &str) -> (found: bool)
    ensures
        found == names(list@).contains(x@),
{
    let mut i: usize = 0;
    while i < list.len()
        invariant
            i <= list.len(),
            forall|j: int| 0 <= j < i ==> names(list@)[j] != x@,
        decreases list.len() - i,
    {
        if same_text(list[i].as_str(), x) {
            assert(names(list@)[i as int] == x@);
            return true;
        }
        assert(names(list@)[i as int] != x@);
        i = i + 1;
    }
    false
}

/// Whether the edge from `src` to `dst` is in `list`.
fn holds_link(list: &Vec<Connection>, src: &str, dst: &str) -> (found: bool)
    ensures
        found == links(list@).contains((src@, dst@)),
{
    let mut i: usize = 0;
    while i < list.len()
        invariant
            i <= list.len(),
            forall|j: int| 0 <= j < i ==> links(list@)[j] != (src@, dst@),
        decreases list.len() - i,
    {
        if same_text(list[i].src.as_str(), src) && same_text(list[i].dst.as_str(), dst) {
            assert(links(list@)[i as int] == (src@, dst@));
            return true;
        }
        assert(links(list@)[i as int] != (src@, dst@));
        i = i + 1;
    }
    false
}

impl ReferenceGraph {
    /// The documents of the graph, in the order in which they were first seen.
    pub closed spec fn nodes(&self) -> Seq<Seq<char>> {
        names(self.nodes@)
    }

    /// The edges of the graph, in the order in which they were first seen.
    pub closed spec fn edges(&self) -> Seq<(Seq<char>, Seq<char>)> {
        links(self.edges@)
    }

    /// The graph's invariant: no document and no edge stands twice, and no
    /// edge leads from a document to itself.
    pub open spec fn wf(&self) -> bool {
        &&& self.nodes().no_duplicates()
        &&& self.edges().no_duplicates()
        &&& loop_free(self.edges())
    }

    /// The graph without documents.
    pub fn new() -> (graph: ReferenceGraph)
        ensures
            graph.wf(),
            graph.nodes() == Seq::<Seq<char>>::empty(),
            graph.edges() == Seq::<(Seq<char>, Seq<char>)>::empty(),
    {
        let graph = ReferenceGraph { nodes: Vec::new(), edges: Vec::new() };
        assert(graph.nodes() =~= Seq::<Seq<char>>::empty());
        assert(graph.edges() =~= Seq::<(Seq<char>, Seq<char>)>::empty());
        graph
    }

    /// Makes `uri` a document of the graph.
    pub fn add_node(&mut self, uri: &str)
        requires
            old(self).wf(),
        ensures
            final(self).wf(),
            final(self).nodes() == with(old(self).nodes(), uri@),
            final(self).edges() == old(self).edges(),
    {
        if !holds(&self.nodes, uri) {
            self.nodes.push(uri.to_owned());
            assert(self.nodes() =~= old(self).nodes().push(uri@));
        }
    }

    /// Records that the document `reference` refers to a symbol that the
    /// document `symbol` declares: `reference` becomes a document of the
    /// graph, and the edge from it to `symbol` an edge, unless the two are
    /// one document.
    pub fn add_reference(&mut self, reference: &str, symbol: &str)
        requires
            old(self).wf(),
        ensures
            final(self).wf(),
            final(self).nodes() == with(old(self).nodes(), reference@),
            final(self).edges() == with_reference(old(self).edges(), reference@, symbol@),
    {
        self.add_node(reference);
        if !same_text(reference, symbol) && !holds_link(&self.edges, reference, symbol) {
            self.edges.push(Connection { src: reference.to_owned(), dst: symbol.to_owned() });
            assert(self.edges() =~= old(self).edges().push((reference@, symbol@)));
        }
    }

    /// Ends the run and hands out the graph with every name taken relative
    /// to `root`: the documents under `root`, and the edges whose two ends
    /// are under `root`, each in the order in which it was first seen. A
    /// name lies under `root` when it is the root, the separator `/` and
    /// whatever follows, and what follows is its relative name. Whatever is
    /// not under `root` is dropped. Nothing stands twice in what comes out,
    /// and no edge leads from a document to itself.
    pub fn finish(self, root: &str) -> (out: (Vec<String>, Vec<Connection>))
        requires
            self.wf(),
        ensures
            names(out.0@) == relative_nodes(self.nodes(), root@),
            links(out.1@) == relative_edges(self.edges(), root@),
            names(out.0@).no_duplicates(),
            links(out.1@).no_duplicates(),
            loop_free(links(out.1@)),
    {
        let front = directory_of(root);
        let mut nodes: Vec<String> = Vec::new();
        let mut i: usize = 0;
        assert(self.nodes().take(0) =~= Seq::empty());
        assert(names(nodes@) =~= Seq::empty());
        while i < self.nodes.len()
            invariant
                i <= self.nodes.len(),
                front@ == directory(root@),
                names(nodes@) == relative_nodes(self.nodes().take(i as int), root@),
            decreases self.nodes.len() - i,
        {
            proof {
                assert(self.nodes().take(i + 1).drop_last() =~= self.nodes().take(i as int));
            }
            let ghost before = nodes@;
            match strip_front(self.nodes[i].as_str(), front.as_str()) {
                Some(rest) => {
                    nodes.push(rest);
                    assert(names(nodes@) =~= names(before).push(rest@));
                },
                None => {},
            }
            i = i + 1;
        }
        assert(self.nodes().take(i as int) =~= self.nodes());
        let mut edges: Vec<Connection> = Vec::new();
        let mut e: usize = 0;
        assert(self.edges().take(0) =~= Seq::empty());
        assert(links(edges@) =~= Seq::empty());
        while e < self.edges.len()
            invariant
                e <= self.edges.len(),
                front@ == directory(root@),
                links(edges@) == relative_edges(self.edges().take(e as int), root@),
            decreases self.edges.len() - e,
        {
            proof {
                assert(self.edges().take(e + 1).drop_last() =~= self.edges().take(e as int));
            }
            let ghost before = edges@;
            match strip_front(self.edges[e].src.as_str(), front.as_str()) {
                Some(src) => match strip_front(self.edges[e].dst.as_str(), front.as_str()) {
                    Some(dst) => {
                        edges.push(Connection { src, dst });
                        assert(links(edges@) =~= links(before).push((src@, dst@)));
                    },
                    None => {},
                },
                None => {},
            }
            e = e + 1;
        }
        assert(self.edges().take(e as int) =~= self.edges());
        proof {
            lemma_relative_nodes(self.nodes(), root@);
            lemma_relative_edges(self.edges(), root@);
        }
        (nodes, edges)
    }
}

/// The documents under `root`, each relative to it, in their order.
pub open spec fn relative_nodes(nodes: Seq<Seq<char>>, root: Seq<char>) -> Seq<Seq<char>>
    decreases nodes.len(),
{
    if nodes.len() == 0 {
        Seq::empty()
    } else {
        match relative_to(nodes.last(), root) {
            Some(rest) => relative_nodes(nodes.drop_last(), root).push(rest),
            None => relative_nodes(nodes.drop_last(), root),
        }
    }
}

/// The edges with both ends under `root`, each end relative to it, in their
/// order.
pub open spec fn relative_edges(edges: Seq<(Seq<char>, Seq<char>)>, root: Seq<char>) -> Seq<
    (Seq<char>, Seq<char>),
>
    decreases edges.len(),
{
    if edges.len() == 0 {
        Seq::empty()
    } else {
        match (relative_to(edges.last().0, root), relative_to(edges.last().1, root)) {
            (Some(src), Some(dst)) => relative_edges(edges.drop_last(), root).push((src, dst)),
            _ => relative_edges(edges.drop_last(), root),
        }
    }
}

/// Taking documents relative to a root brings in nothing that was not there,
/// and no document twice.
pub proof fn lemma_relative_nodes(nodes: Seq<Seq<char>>, root: Seq<char>)
    requires
        nodes.no_duplicates(),
    ensures
        relative_nodes(nodes, root).no_duplicates(),
        forall|x: Seq<char>| #[trigger]
            relative_nodes(nodes, root).contains(x) ==> exists|i: int|
                0 <= i < nodes.len() && relative_to(#[trigger] nodes[i], root) == Some(x),
    decreases nodes.len(),
{
    if nodes.len() > 0 {
        let front = nodes.drop_last();
        lemma_relative_nodes(front, root);
        let kept = relative_nodes(front, root);
        let out = relative_nodes(nodes, root);
        assert forall|x: Seq<char>| #[trigger] out.contains(x) implies exists|i: int|
            0 <= i < nodes.len() && relative_to(#[trigger] nodes[i], root) == Some(x) by {
            let k = choose|k: int| 0 <= k < out.len() && out[k] == x;
            if k < kept.len() {
                assert(kept.contains(x));
                let i = choose|i: int|
                    0 <= i < front.len() && relative_to(#[trigger] front[i], root) == Some(x);
                assert(nodes[i] == front[i]);
            } else {
                assert(relative_to(nodes[nodes.len() - 1], root) == Some(x));
            }
        }
        match relative_to(nodes.last(), root) {
            Some(rest) => {
                if kept.contains(rest) {
                    let i = choose|i: int|
                        0 <= i < front.len() && relative_to(#[trigger] front[i], root) == Some(
                            rest,
                        );
                    lemma_relative_is_injective(front[i], nodes.last(), root);
                    assert(nodes[i] == nodes[nodes.len() - 1]);
                }
                assert forall|a: int, b: int| 0 <= a < b < out.len() implies out[a] != out[b] by {
                    if b == kept.len() {
                        assert(kept.contains(out[a]));
                    }
                }
            },
            None => {},
        }
    }
}

/// Taking edges relative to a root brings in nothing that was not there, no
/// edge twice, and no edge from a document to itself.
pub proof fn lemma_relative_edges(edges: Seq<(Seq<char>, Seq<char>)>, root: Seq<char>)
    requires
        edges.no_duplicates(),
        loop_free(edges),
    ensures
        relative_edges(edges, root).no_duplicates(),
        loop_free(relative_edges(edges, root)),
        forall|x: (Seq<char>, Seq<char>)| #[trigger]
            relative_edges(edges, root).contains(x) ==> exists|i: int|
                0 <= i < edges.len() && relative_to((#[trigger] edges[i]).0, root) == Some(x.0)
                    && relative_to(edges[i].1, root) == Some(x.1),
    decreases edges.len(),
{
    if edges.len() > 0 {
        let front = edges.drop_last();
        assert(loop_free(front)) by {
            assert forall|i: int| 0 <= i < front.len() implies (#[trigger] front[i]).0
                != front[i].1 by {
                assert(front[i] == edges[i]);
            }
        }
        lemma_relative_edges(front, root);
        let kept = relative_edges(front, root);
        let out = relative_edges(edges, root);
        assert forall|x: (Seq<char>, Seq<char>)| #[trigger] out.contains(x) implies exists|i: int|
            0 <= i < edges.len() && relative_to((#[trigger] edges[i]).0, root) == Some(x.0)
                && relative_to(edges[i].1, root) == Some(x.1) by {
            let k = choose|k: int| 0 <= k < out.len() && out[k] == x;
            if k < kept.len() {
                assert(kept.contains(x));
                let i = choose|i: int|
                    0 <= i < front.len() && relative_to((#[trigger] front[i]).0, root) == Some(x.0)
                        && relative_to(front[i].1, root) == Some(x.1);
                assert(edges[i] == front[i]);
            } else {
                assert(relative_to(edges[edges.len() - 1].0, root) == Some(x.0));
            }
        }
        match (relative_to(edges.last().0, root), relative_to(edges.last().1, root)) {
            (Some(src), Some(dst)) => {
                if kept.contains((src, dst)) {
                    let i = choose|i: int|
                        0 <= i < front.len() && relative_to((#[trigger] front[i]).0, root) == Some(
                            src,
                        ) && relative_to(front[i].1, root) == Some(dst);
                    lemma_relative_is_injective(front[i].0, edges.last().0, root);
                    lemma_relative_is_injective(front[i].1, edges.last().1, root);
                    assert(edges[i] == edges[edges.len() - 1]);
                }
                assert forall|a: int, b: int| 0 <= a < b < out.len() implies out[a] != out[b] by {
                    if b == kept.len() {
                        assert(kept.contains(out[a]));
                    }
                }
                if src == dst {
                    lemma_relative_is_injective(edges.last().0, edges.last().1, root);
                    assert(edges[edges.len() - 1].0 != edges[edges.len() - 1].1);
                }
                assert forall|i: int| 0 <= i < out.len() implies (#[trigger] out[i]).0
                    != out[i].1 by {
                    if i < kept.len() {
                        assert(out[i] == kept[i]);
                    }
                }
            },
            _ => {},
        }
    }
}

/// The graph after the references to a symbol of the document `symbol`
/// have been recorded, one after the other: every document that refers to
/// the symbol is a node, and has an edge to `symbol` unless it is `symbol`.
pub open spec fn after_references(
    nodes: Seq<Seq<char>>,
    edges: Seq<(Seq<char>, Seq<char>)>,
    references: Seq<Seq<char>>,
    symbol: Seq<char>,
) -> (Seq<Seq<char>>, Seq<(Seq<char>, Seq<char>)>)
    decreases references.len(),
{
    if references.len() == 0 {
        (nodes, edges)
    } else {
        let (n, e) = after_references(nodes, edges, references.drop_last(), symbol);
        (with(n, references.last()), with_reference(e, references.last(), symbol))
    }
}

/// What recording references does to the graph, as sets. The documents are
/// those that were there and those that refer to the symbol. The edges are
/// those that were there and one from each referring document other than
/// `symbol` to `symbol`. No edge from a document to itself comes in.
pub proof fn lemma_after_references(
    nodes: Seq<Seq<char>>,
    edges: Seq<(Seq<char>, Seq<char>)>,
    references: Seq<Seq<char>>,
    symbol: Seq<char>,
)
    ensures
        forall|x: Seq<char>| #[trigger]
            after_references(nodes, edges, references, symbol).0.contains(x) <==> nodes.contains(x)
                || references.contains(x),
        forall|x: (Seq<char>, Seq<char>)| #[trigger]
            after_references(nodes, edges, references, symbol).1.contains(x) <==> edges.contains(
                x,
            ) || (references.contains(x.0) && x.1 == symbol && x.0 != symbol),
        loop_free(edges) ==> loop_free(after_references(nodes, edges, references, symbol).1),
    decreases references.len(),
{
    if references.len() > 0 {
        let front = references.drop_last();
        let last = references.last();
        lemma_after_references(nodes, edges, front, symbol);
        let (n, e) = after_references(nodes, edges, front, symbol);
        let (n2, e2) = after_references(nodes, edges, references, symbol);
        lemma_with_holds(n, last);
        lemma_with_holds(e, (last, symbol));
        assert forall|x: Seq<char>| references.contains(x) <==> front.contains(x) || x == last by {
            if references.contains(x) {
                let i = choose|i: int| 0 <= i < references.len() && references[i] == x;
                if i < front.len() {
                    assert(front[i] == x);
                }
            }
            if front.contains(x) {
                let i = choose|i: int| 0 <= i < front.len() && front[i] == x;
                assert(references[i] == x);
            }
            if x == last {
                assert(references[references.len() - 1] == x);
            }
        }
        assert forall|x: Seq<char>| #[trigger] n2.contains(x) <==> nodes.contains(x)
            || references.contains(x) by {
            assert(n.contains(x) <==> nodes.contains(x) || front.contains(x));
        }
        assert forall|x: (Seq<char>, Seq<char>)| #[trigger] e2.contains(x) <==> edges.contains(x)
            || (references.contains(x.0) && x.1 == symbol && x.0 != symbol) by {
            assert(e.contains(x) <==> edges.contains(x) || (front.contains(x.0) && x.1 == symbol
                && x.0 != symbol));
        }
        if loop_free(edges) {
            assert forall|i: int| 0 <= i < e2.len() implies (#[trigger] e2[i]).0 != e2[i].1 by {
                if i < e.len() {
                    assert(e2[i] == e[i]);
                }
            }
        }
    }
}

/// What `with` holds: what the list held, and `x`.
pub proof fn lemma_with_holds<T>(list: Seq<T>, x: T)
    ensures
        forall|y: T| #[trigger] with(list, x).contains(y) <==> list.contains(y) || y == x,
        list.no_duplicates() ==> with(list, x).no_duplicates(),
{
    let out = with(list, x);
    assert forall|y: T| #[trigger] out.contains(y) <==> list.contains(y) || y == x by {
        if out.contains(y) {
            let i = choose|i: int| 0 <= i < out.len() && out[i] == y;
            if i < list.len() {
                assert(list[i] == y);
            }
        }
        if list.contains(y) {
            let i = choose|i: int| 0 <= i < list.len() && list[i] == y;
            assert(out[i] == y);
        }
        if y == x && !list.contains(x) {
            assert(out[out.len() - 1] == x);
        }
    }
}

/// Recording the same references once more changes nothing: what a second
/// look at an unchanged project finds is in the graph already.
pub proof fn lemma_recording_is_idempotent(
    nodes: Seq<Seq<char>>,
    edges: Seq<(Seq<char>, Seq<char>)>,
    references: Seq<Seq<char>>,
    symbol: Seq<char>,
)
    ensures
        ({
            let once = after_references(nodes, edges, references, symbol);
            after_references(once.0, once.1, references, symbol) == once
        }),
{
    let once = after_references(nodes, edges, references, symbol);
    lemma_after_references(nodes, edges, references, symbol);
    lemma_recording_known(once.0, once.1, references, symbol);
}

/// Recording references that the graph holds already changes nothing.
pub proof fn lemma_recording_known(
    nodes: Seq<Seq<char>>,
    edges: Seq<(Seq<char>, Seq<char>)>,
    references: Seq<Seq<char>>,
    symbol: Seq<char>,
)
    requires
        forall|i: int| 0 <= i < references.len() ==> nodes.contains(#[trigger] references[i]),
        forall|i: int|
            0 <= i < references.len() && references[i] != symbol ==> edges.contains(
                (#[trigger] references[i], symbol),
            ),
    ensures
        after_references(nodes, edges, references, symbol) == (nodes, edges),
    decreases references.len(),
{
    if references.len() > 0 {
        let front = references.drop_last();
        assert forall|i: int| 0 <= i < front.len() implies nodes.contains(#[trigger] front[i]) by {
            assert(front[i] == references[i]);
        }
        assert forall|i: int| 0 <= i < front.len() && front[i] != symbol implies edges.contains(
            (#[trigger] front[i], symbol),
        ) by {
            assert(front[i] == references[i]);
        }
        lemma_recording_known(nodes, edges, front, symbol);
        assert(references.last() == references[references.len() - 1]);
    }
}

/// The graph that comes of recording references depends on which documents
/// refer to the symbol, not on the order in which the server lists them nor
/// on how often: two answers that name the same documents give the same set
/// of documents and the same set of edges.
pub proof fn lemma_recording_is_set_equal(
    nodes: Seq<Seq<char>>,
    edges: Seq<(Seq<char>, Seq<char>)>,
    first: Seq<Seq<char>>,
    second: Seq<Seq<char>>,
    symbol: Seq<char>,
)
    requires
        first.to_set() == second.to_set(),
    ensures
        after_references(nodes, edges, first, symbol).0.to_set() == after_references(
            nodes,
            edges,
            second,
            symbol,
        ).0.to_set(),
        after_references(nodes, edges, first, symbol).1.to_set() == after_references(
            nodes,
            edges,
            second,
            symbol,
        ).1.to_set(),
{
    broadcast use vstd::set::group_set_axioms;

    lemma_after_references(nodes, edges, first, symbol);
    lemma_after_references(nodes, edges, second, symbol);
    let a = after_references(nodes, edges, first, symbol);
    let b = after_references(nodes, edges, second, symbol);
    assert forall|x: Seq<char>| first.contains(x) <==> second.contains(x) by {
        assert(first.to_set().contains(x) == first.contains(x));
        assert(second.to_set().contains(x) == second.contains(x));
    }
    assert forall|x: Seq<char>| a.0.to_set().contains(x) <==> b.0.to_set().contains(x) by {
        assert(a.0.contains(x) <==> b.0.contains(x));
    }
    assert(a.0.to_set() =~= b.0.to_set());
    assert forall|x: (Seq<char>, Seq<char>)|
        a.1.to_set().contains(x) <==> b.1.to_set().contains(x) by {
        assert(first.contains(x.0) <==> second.contains(x.0));
        assert(a.1.contains(x) <==> b.1.contains(x));
    }
    assert(a.1.to_set() =~= b.1.to_set());
}

} // verus!
