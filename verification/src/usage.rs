//! How much of a project depends on each of its functions: for every
//! function, the share of the functions that reach it along calls.

use crate::digraph::{
    count_reaching, graph_add_edge, graph_add_node, graph_edges, graph_new, graph_nodes,
    lemma_reaching_bound, lemma_reaching_none, lemma_unentered_is_unreached, reachable, reaching,
};
use crate::symbols::{flatten_symbols, DocumentSymbolResponse, Position, Range, Site, SymbolKind};
use crate::text::{directory, directory_of, lies_under, same_text, starts_with};
use vstd::prelude::*;

verus! {

/// Something that can be called, as the call hierarchy of a server names it.
#[derive(Clone, Debug, PartialEq, Eq)]
pub struct CallHierarchyItem {
    pub name: String,
    pub kind: SymbolKind,
    /// The path of the document that declares the item.
    pub document: String,
    pub range: Range,
    pub selection_range: Range,
}

impl CallHierarchyItem {
    /// A copy of this item.
    pub fn duplicate(&self) -> (copy: CallHierarchyItem)
        ensures
            copy == *self,
    {
        CallHierarchyItem {
            name: self.name.clone(),
            kind: self.kind,
            document: self.document.clone(),
            range: self.range,
            selection_range: self.selection_range,
        }
    }
}

/// The places of the sites that can be called, in their order.
pub open spec fn callable_places(sites: Seq<Site>) -> Seq<Position>
    decreases sites.len(),
{
    if sites.len() == 0 {
        Seq::empty()
    } else if sites.last().kind.is_callable() {
        callable_places(sites.drop_last()).push(sites.last().position)
    } else {
        callable_places(sites.drop_last())
    }
}

/// The functions and methods that one document declares, each with the
/// document's name. A document without an answer declares none.
pub open spec fn functions_of(uri: Seq<char>, answer: Option<DocumentSymbolResponse>) -> Seq<
    (Seq<char>, Position),
> {
    match answer {
        Some(response) => callable_places(response.sites()).map_values(
            |p: Position| (uri, p),
        ),
        None => Seq::empty(),
    }
}

/// The functions and methods that the documents declare: those of the first
/// document in reading order, then those of the next.
pub open spec fn project_functions(
    documents: Seq<(String, Option<DocumentSymbolResponse>)>,
) -> Seq<(Seq<char>, Position)>
    decreases documents.len(),
{
    if documents.len() == 0 {
        Seq::empty()
    } else {
        project_functions(documents.drop_last()) + functions_of(
            documents.last().0@,
            documents.last().1,
        )
    }
}

/// A list of declarations, each document by its text.
pub open spec fn declarations(list: Seq<(String, Position)>) -> Seq<(Seq<char>, Position)> {
    list.map_values(|d: (String, Position)| (d.0@, d.1))
}

/// Collects the declarations of functions and methods from what the server
/// answered for each document: symbols of any depth, in reading order,
/// symbols of other kinds left out.
pub fn get_project_functions(documents: &Vec<(String, Option<DocumentSymbolResponse>)>) -> (out:
    Vec<(String, Position)>)
    ensures
        declarations(out@) == project_functions(documents@),
{
    let mut out: Vec<(String, Position)> = Vec::new();
    let mut d: usize = 0;
    assert(documents@.take(0) =~= Seq::empty());
    assert(declarations(out@) =~= Seq::empty());
    while d < documents.len()
        invariant
            d <= documents.len(),
            declarations(out@) == project_functions(documents@.take(d as int)),
        decreases documents.len() - d,
    {
        let ghost before = out@;
        let ghost uri = documents@[d as int].0@;
        match &documents[d].1 {
            Some(response) => {
                let sites = flatten_symbols(response);
                let mut i: usize = 0;
                assert(sites@.take(0) =~= Seq::empty());
                assert(declarations(out@) =~= declarations(before) + callable_places(
                    sites@.take(0),
                ).map_values(|p: Position| (uri, p)));
                while i < sites.len()
                    invariant
                        i <= sites.len(),
                        d < documents.len(),
                        uri == documents@[d as int].0@,
                        declarations(out@) == declarations(before) + callable_places(
                            sites@.take(i as int),
                        ).map_values(|p: Position| (uri, p)),
                    decreases sites.len() - i,
                {
                    let ghost seen = sites@.take(i as int);
                    assert(sites@.take(i + 1).drop_last() =~= seen);
                    if sites[i].kind.callable() {
                        let ghost grown = out@;
                        out.push((documents[d].0.clone(), sites[i].position));
                        assert(declarations(out@) =~= declarations(grown).push(
                            (uri, sites@[i as int].position),
                        ));
                        assert(callable_places(sites@.take(i + 1)).map_values(
                            |p: Position| (uri, p),
                        ) =~= callable_places(seen).map_values(|p: Position| (uri, p)).push(
                            (uri, sites@[i as int].position),
                        ));
                    }
                    i = i + 1;
                }
                assert(sites@.take(i as int) =~= sites@);
            },
            None => {
                assert(declarations(out@) =~= declarations(before) + Seq::empty());
            },
        }
        proof {
            assert(documents@.take(d + 1).drop_last() =~= documents@.take(d as int));
        }
        d = d + 1;
    }
    assert(documents@.take(d as int) =~= documents@);
    out
}

/// The calls into `target` that come from under `root`, each as the caller
/// and the target, in the order of `callers`.
pub open spec fn calls_into(
    target: CallHierarchyItem,
    callers: Seq<CallHierarchyItem>,
    root: Seq<char>,
) -> Seq<(CallHierarchyItem, CallHierarchyItem)>
    decreases callers.len(),
{
    if callers.len() == 0 {
        Seq::empty()
    } else if lies_under(callers.last().document@, root) {
        calls_into(target, callers.drop_last(), root).push((callers.last(), target))
    } else {
        calls_into(target, callers.drop_last(), root)
    }
}

/// The items among the answers that can be called, in their order.
pub open spec fn callable_items(
    answers: Seq<(CallHierarchyItem, Option<Vec<CallHierarchyItem>>)>,
) -> Seq<CallHierarchyItem>
    decreases answers.len(),
{
    if answers.len() == 0 {
        Seq::empty()
    } else if answers.last().0.kind.is_callable() {
        callable_items(answers.drop_last()).push(answers.last().0)
    } else {
        callable_items(answers.drop_last())
    }
}

/// The calls that one answer records: the calls into its item from under
/// `root`, where the item can be called and the server named its callers.
pub open spec fn calls_of(
    answer: (CallHierarchyItem, Option<Vec<CallHierarchyItem>>),
    root: Seq<char>,
) -> Seq<(CallHierarchyItem, CallHierarchyItem)> {
    match answer.1 {
        Some(callers) => if answer.0.kind.is_callable() {
            calls_into(answer.0, callers@, root)
        } else {
            Seq::empty()
        },
        None => Seq::empty(),
    }
}

/// The calls that the answers record, answer after answer.
pub open spec fn recorded_calls(
    answers: Seq<(CallHierarchyItem, Option<Vec<CallHierarchyItem>>)>,
    root: Seq<char>,
) -> Seq<(CallHierarchyItem, CallHierarchyItem)>
    decreases answers.len(),
{
    if answers.len() == 0 {
        Seq::empty()
    } else {
        recorded_calls(answers.drop_last(), root) + calls_of(answers.last(), root)
    }
}

/// Collects the call graph from what the server answered: for each item of
/// the call hierarchy, the items that call it. Items that are neither
/// function nor method are left out with their calls; so is every call from
/// a document that does not lie under `root_path`, and an item for which the
/// server named no callers has none. The first list holds the items, the
/// second the calls, each as caller and callee.
pub fn get_function_calls(
    answers: &Vec<(CallHierarchyItem, Option<Vec<CallHierarchyItem>>)>,
    root_path: &str,
) -> (out: (Vec<CallHierarchyItem>, Vec<(CallHierarchyItem, CallHierarchyItem)>))
    ensures
        out.0@ == callable_items(answers@),
        out.1@ == recorded_calls(answers@, root_path@),
{
    let front = directory_of(root_path);
    let mut items: Vec<CallHierarchyItem> = Vec::new();
    let mut calls: Vec<(CallHierarchyItem, CallHierarchyItem)> = Vec::new();
    let mut a: usize = 0;
    assert(answers@.take(0) =~= Seq::empty());
    while a < answers.len()
        invariant
            a <= answers.len(),
            front@ == directory(root_path@),
            items@ == callable_items(answers@.take(a as int)),
            calls@ == recorded_calls(answers@.take(a as int), root_path@),
        decreases answers.len() - a,
    {
        let item = &answers[a].0;
        let ghost before = calls@;
        proof {
            assert(answers@.take(a + 1).drop_last() =~= answers@.take(a as int));
        }
        if item.kind.callable() {
            items.push(item.duplicate());
            match &answers[a].1 {
                Some(callers) => {
                    let mut c: usize = 0;
                    assert(callers@.take(0) =~= Seq::empty());
                    assert(calls@ =~= before + calls_into(*item, callers@.take(0), root_path@));
                    while c < callers.len()
                        invariant
                            c <= callers.len(),
                            front@ == directory(root_path@),
                            calls@ == before + calls_into(
                                *item,
                                callers@.take(c as int),
                                root_path@,
                            ),
                        decreases callers.len() - c,
                    {
                        proof {
                            assert(callers@.take(c + 1).drop_last() =~= callers@.take(c as int));
                        }
                        if starts_with(callers[c].document.as_str(), front.as_str()) {
                            calls.push((callers[c].duplicate(), item.duplicate()));
                        }
                        c = c + 1;
                    }
                    assert(callers@.take(c as int) =~= callers@);
                },
                None => {
                    assert(calls@ =~= before + Seq::empty());
                },
            }
        } else {
            assert(calls@ =~= before + Seq::empty());
        }
        a = a + 1;
    }
    assert(answers@.take(a as int) =~= answers@);
    (items, calls)
}

/// How much of a project depends on one function.
#[derive(Clone, Copy, Debug, PartialEq, Eq, Structural)]
pub struct Usage {
    /// How many other functions reach this one along calls.
    pub dependents: usize,
    /// How many functions there are.
    pub total: usize,
}

/// The usage score in whole percent: a hundred times the dependents, by the
/// total, rounded down; never above a hundred, and zero where there is
/// nothing to divide by.
pub open spec fn percent_of(dependents: nat, total: nat) -> nat {
    if total == 0 {
        0
    } else if dependents >= total {
        100
    } else {
        (100 * dependents) / total
    }
}

impl Usage {
    /// The usage score in whole percent.
    pub fn percent(&self) -> (score: u64)
        ensures
            score == percent_of(self.dependents as nat, self.total as nat),
            score <= 100,
    {
        if self.total == 0 {
            0
        } else if self.dependents >= self.total {
            100
        } else {
            let d: u128 = self.dependents as u128;
            let t: u128 = self.total as u128;
            let q: u128 = (100 * d) / t;
            assert(q < 100) by (nonlinear_arith)
                requires
                    q as int == (100 * (d as int)) / (t as int),
                    d < t,
                    0 < t,
            ;
            q as u64
        }
    }
}

/// What makes two items the same node of the call graph: the document, the
/// declaration range and the kind. The server names one function anew in
/// every answer, so items are compared by these, not by where they stand.
pub struct Identity {
    pub document: Seq<char>,
    pub range: Range,
    pub kind: SymbolKind,
}

/// The identity of an item.
pub open spec fn identity(item: CallHierarchyItem) -> Identity {
    Identity { document: item.document@, range: item.selection_range, kind: item.kind }
}

/// Whether the item at `k` is the node of `who`: the first item with that
/// identity.
pub open spec fn is_node_of(items: Seq<CallHierarchyItem>, who: Identity, k: int) -> bool {
    &&& 0 <= k < items.len()
    &&& identity(items[k]) == who
    &&& forall|j: int| 0 <= j < k ==> identity(#[trigger] items[j]) != who
}

/// Whether some item has the identity `who`.
pub open spec fn has_node(items: Seq<CallHierarchyItem>, who: Identity) -> bool {
    exists|k: int| is_node_of(items, who, k)
}

/// The node of `who`.
pub open spec fn node_of(items: Seq<CallHierarchyItem>, who: Identity) -> nat {
    (choose|k: int| is_node_of(items, who, k)) as nat
}

/// An identity has one node at most.
pub proof fn lemma_node_is_unique(items: Seq<CallHierarchyItem>, who: Identity, k: int)
    requires
        is_node_of(items, who, k),
    ensures
        has_node(items, who),
        node_of(items, who) == k,
{
    let c = choose|c: int| is_node_of(items, who, c);
    if c < k {
        assert(identity(items[c]) != who);
    } else if k < c {
        assert(identity(items[k]) != who);
    }
}

/// Where no two items have the same identity, every item is its own node.
pub proof fn lemma_distinct_items_are_nodes(items: Seq<CallHierarchyItem>, k: int)
    requires
        0 <= k < items.len(),
        forall|i: int, j: int|
            0 <= i < j < items.len() ==> identity(#[trigger] items[i]) != identity(
                #[trigger] items[j],
            ),
    ensures
        has_node(items, identity(items[k])),
        node_of(items, identity(items[k])) == k,
{
    lemma_node_is_unique(items, identity(items[k]), k);
}

/// Whether both ends of a call are declared among the items.
pub open spec fn is_known(
    items: Seq<CallHierarchyItem>,
    call: (CallHierarchyItem, CallHierarchyItem),
) -> bool {
    has_node(items, identity(call.0)) && has_node(items, identity(call.1))
}

/// The calls as edges between nodes: from the node of the caller to the node
/// of the callee.
pub open spec fn call_edges(
    items: Seq<CallHierarchyItem>,
    calls: Seq<(CallHierarchyItem, CallHierarchyItem)>,
) -> Seq<(nat, nat)> {
    calls.map_values(
        |c: (CallHierarchyItem, CallHierarchyItem)|
            (node_of(items, identity(c.0)), node_of(items, identity(c.1))),
    )
}

/// Why the usage could not be computed.
#[derive(Clone, Copy, Debug, PartialEq, Eq, Structural)]
pub enum UsageError {
    /// There are more items or calls than the graph can number.
    TooLarge,
    /// The call at this place has an end that is not among the items.
    UnknownItem(usize),
}

/// The node of an item as a call names it: the first of `items` with the
/// same document, declaration range and kind, if there is one.
pub fn find_node(items: &Vec<CallHierarchyItem>, end: &CallHierarchyItem) -> (out: Option<usize>)
    ensures
        match out {
            Some(k) => is_node_of(items@, identity(*end), k as int),
            None => !has_node(items@, identity(*end)),
        },
{
    let mut k: usize = 0;
    while k < items.len()
        invariant
            k <= items.len(),
            forall|j: int| 0 <= j < k ==> identity(#[trigger] items@[j]) != identity(*end),
        decreases items.len() - k,
    {
        if items[k].selection_range == end.selection_range && items[k].kind == end.kind
            && same_text(items[k].document.as_str(), end.document.as_str()) {
            return Some(k);
        }
        k = k + 1;
    }
    None
}

/// The usage of the item at `node`, given the calls.
pub open spec fn usage_of(
    items: Seq<CallHierarchyItem>,
    calls: Seq<(CallHierarchyItem, CallHierarchyItem)>,
    node: int,
) -> Usage {
    Usage {
        dependents: reaching(call_edges(items, calls), node as nat, items.len()) as usize,
        total: items.len() as usize,
    }
}

/// Computes the usage of every item: how many of the other items reach it
/// along the calls, and how many items there are.
///
/// Each item is a node of its own. A call joins the node of its caller to
/// the node of its callee, and the node of an item is the first item with
/// the same document, declaration range and kind. The outcome has one entry
/// for each item, in
/// the order of `fn_items`. More items or calls than `petgraph` numbers with
/// thirty-two bits are refused, and so is a call with an end that is not
/// among the items: the error names the first such call.
pub fn calc_fn_usage(
    fn_items: &Vec<CallHierarchyItem>,
    fn_calls: &Vec<(CallHierarchyItem, CallHierarchyItem)>,
) -> (out: Result<Vec<Usage>, UsageError>)
    ensures
        match out {
            Ok(usages) => {
                &&& fn_items@.len() < u32::MAX && fn_calls@.len() < u32::MAX
                &&& forall|c: int| 0 <= c < fn_calls@.len() ==> is_known(fn_items@, fn_calls@[c])
                &&& usages@.len() == fn_items@.len()
                &&& forall|i: int|
                    0 <= i < usages@.len() ==> #[trigger] usages@[i] == usage_of(
                        fn_items@,
                        fn_calls@,
                        i,
                    )
                &&& forall|i: int|
                    0 <= i < usages@.len() ==> (#[trigger] usages@[i]).dependents < usages@[i].total
            },
            Err(UsageError::TooLarge) => fn_items@.len() >= u32::MAX || fn_calls@.len()
                >= u32::MAX,
            Err(UsageError::UnknownItem(c)) => {
                &&& fn_items@.len() < u32::MAX && fn_calls@.len() < u32::MAX
                &&& c < fn_calls@.len()
                &&& !is_known(fn_items@, fn_calls@[c as int])
                &&& forall|b: int| 0 <= b < c ==> is_known(fn_items@, fn_calls@[b])
            },
        },
{
    let total = fn_items.len();
    if total >= u32::MAX as usize || fn_calls.len() >= u32::MAX as usize {
        return Err(UsageError::TooLarge);
    }
    let mut graph = graph_new();
    let mut nodes: Vec<usize> = Vec::new();
    while nodes.len() < total
        invariant
            nodes.len() <= total,
            total < u32::MAX,
            graph_nodes(graph) == nodes.len(),
            graph_edges(graph) == Seq::<(nat, nat)>::empty(),
            forall|j: int| 0 <= j < nodes.len() ==> nodes@[j] == j,
        decreases total - nodes.len(),
    {
        let node = graph_add_node(&mut graph);
        nodes.push(node);
    }
    let mut c: usize = 0;
    assert(fn_calls@.take(0) =~= Seq::empty());
    assert(call_edges(fn_items@, fn_calls@.take(0)) =~= Seq::empty());
    while c < fn_calls.len()
        invariant
            c <= fn_calls.len(),
            fn_calls.len() < u32::MAX,
            total == fn_items.len(),
            total < u32::MAX,
            graph_nodes(graph) == total,
            nodes.len() == total,
            forall|j: int| 0 <= j < nodes.len() ==> nodes@[j] == j,
            graph_edges(graph) == call_edges(fn_items@, fn_calls@.take(c as int)),
            forall|b: int| 0 <= b < c ==> is_known(fn_items@, fn_calls@[b]),
        decreases fn_calls.len() - c,
    {
        let from = match find_node(fn_items, &fn_calls[c].0) {
            Some(k) => k,
            None => {
                return Err(UsageError::UnknownItem(c));
            },
        };
        let to = match find_node(fn_items, &fn_calls[c].1) {
            Some(k) => k,
            None => {
                return Err(UsageError::UnknownItem(c));
            },
        };
        proof {
            lemma_node_is_unique(fn_items@, identity(fn_calls@[c as int].0), from as int);
            lemma_node_is_unique(fn_items@, identity(fn_calls@[c as int].1), to as int);
            assert(call_edges(fn_items@, fn_calls@.take(c + 1)) =~= call_edges(
                fn_items@,
                fn_calls@.take(c as int),
            ).push((from as nat, to as nat)));
        }
        graph_add_edge(&mut graph, nodes[from], nodes[to]);
        c = c + 1;
    }
    assert(fn_calls@.take(c as int) =~= fn_calls@);
    let mut usages: Vec<Usage> = Vec::new();
    let mut i: usize = 0;
    while i < total
        invariant
            i <= total,
            total == fn_items.len(),
            graph_nodes(graph) == total,
            nodes.len() == total,
            forall|j: int| 0 <= j < nodes.len() ==> nodes@[j] == j,
            graph_edges(graph) == call_edges(fn_items@, fn_calls@),
            usages@.len() == i,
            forall|j: int|
                0 <= j < i ==> #[trigger] usages@[j] == usage_of(fn_items@, fn_calls@, j),
            forall|j: int| 0 <= j < i ==> (#[trigger] usages@[j]).dependents < usages@[j].total,
        decreases total - i,
    {
        let dependents = count_reaching(&graph, nodes[i], total);
        usages.push(Usage { dependents, total });
        i = i + 1;
    }
    Ok(usages)
}

/// The usage score lies between nothing and a hundred percent, for every
/// item and whatever the calls: fewer items reach an item than there are
/// items, so its score stays below a hundred.
pub proof fn lemma_usage_is_a_share(
    items: Seq<CallHierarchyItem>,
    calls: Seq<(CallHierarchyItem, CallHierarchyItem)>,
    node: int,
)
    requires
        0 <= node < items.len() <= usize::MAX,
    ensures
        0 <= usage_of(items, calls, node).dependents < usage_of(items, calls, node).total,
        0 <= percent_of(
            usage_of(items, calls, node).dependents as nat,
            usage_of(items, calls, node).total as nat,
        ) < 100,
{
    let edges = call_edges(items, calls);
    lemma_reaching_bound(edges, node as nat, items.len());
    let d = reaching(edges, node as nat, items.len());
    let t = items.len();
    assert((100 * d) / t < 100) by (nonlinear_arith)
        requires
            0 <= d < t,
    ;
    assert(0 <= (100 * d) / t) by (nonlinear_arith)
        requires
            0 <= d < t,
    ;
}

/// The usage score never leaves the range from nothing to a hundred,
/// whatever numbers it is computed from.
pub proof fn lemma_percent_is_bounded(dependents: nat, total: nat)
    ensures
        0 <= percent_of(dependents, total) <= 100,
{
    if total > 0 && dependents < total {
        assert((100 * dependents) / total < 100) by (nonlinear_arith)
            requires
                0 <= dependents < total,
        ;
    }
}

/// An item that no other item reaches has the score nothing.
pub proof fn lemma_unreached_scores_nothing(
    items: Seq<CallHierarchyItem>,
    calls: Seq<(CallHierarchyItem, CallHierarchyItem)>,
    node: int,
)
    requires
        0 <= node < items.len() <= usize::MAX,
        forall|other: nat|
            other < items.len() && other != node ==> !#[trigger] reachable(
                call_edges(items, calls),
                other,
                node as nat,
            ),
    ensures
        usage_of(items, calls, node).dependents == 0,
        percent_of(
            usage_of(items, calls, node).dependents as nat,
            usage_of(items, calls, node).total as nat,
        ) == 0,
{
    lemma_reaching_none(call_edges(items, calls), node as nat, items.len());
}

/// An item that no call enters has the score nothing: a function that is
/// never called has no dependents, however many functions there are.
pub proof fn lemma_uncalled_scores_nothing(
    items: Seq<CallHierarchyItem>,
    calls: Seq<(CallHierarchyItem, CallHierarchyItem)>,
    node: int,
)
    requires
        0 <= node < items.len() <= usize::MAX,
        forall|c: int|
            0 <= c < calls.len() ==> node_of(items, identity((#[trigger] calls[c]).1))
                != node,
    ensures
        usage_of(items, calls, node).dependents == 0,
{
    let edges = call_edges(items, calls);
    assert forall|other: nat| other < items.len() && other != node implies !#[trigger] reachable(
        edges,
        other,
        node as nat,
    ) by {
        assert forall|i: int| 0 <= i < edges.len() implies (#[trigger] edges[i]).1 != node as nat by {
            assert(edges[i].1 == node_of(items, identity(calls[i].1)));
        }
        lemma_unentered_is_unreached(edges, other, node as nat);
    }
    lemma_unreached_scores_nothing(items, calls, node);
}

} // verus!
