//! The run that builds the reference graph: which message goes to the
//! server next, given what the server has answered so far.
//!
//! The run itself sends nothing and reads nothing. Its caller performs each
//! action, and hands back what came of it as an event.

use crate::refgraph::{
    after_references, lemma_after_references, lemma_with_holds, links, loop_free, names,
    relative_edges, relative_nodes, with, Connection, ReferenceGraph,
};
use crate::symbols::{flatten_symbols, DocumentSymbolResponse, Position, Site};
use vstd::prelude::*;

verus! {

/// Why a run was given up.
#[derive(Clone, Copy, Debug, PartialEq, Eq, Structural)]
pub enum BuildError {
    /// The server does not provide the symbols of a document.
    NoDocumentSymbols,
    /// The server does not provide the references to a symbol.
    NoReferences,
    /// An event came that answers no action of the run.
    Unexpected,
}

/// What the client tells the server that it is interested in.
#[derive(Clone, Copy, Debug, PartialEq, Eq, Structural)]
pub struct Interests {
    pub document_symbols: bool,
    pub references: bool,
    pub call_hierarchy: bool,
    pub workspace_symbols: bool,
}

/// What the server says that it provides, as far as the run depends on it.
#[derive(Clone, Copy, Debug, PartialEq, Eq, Structural)]
pub struct ServerCapabilities {
    pub document_symbol_provider: bool,
    pub references_provider: bool,
}

/// What the caller of a run is to do next.
#[derive(Clone, Copy, Debug, PartialEq, Eq, Structural)]
pub enum Action {
    /// Send `initialize`, with the interests of the run and its root as the
    /// workspace folder, and hand back the server's capabilities.
    Initialize,
    /// Send the notification `initialized`.
    Initialized,
    /// Open the file at this place in the list, with its text.
    Open { file: usize },
    /// Ask for the symbols of that file.
    Symbols { file: usize },
    /// Ask for the references to the symbol declared at `position` in that
    /// file, the declaration included.
    References { file: usize, position: Position },
    /// Nothing: the graph is complete.
    Finish,
    /// Nothing: the run is given up.
    Abort(BuildError),
}

/// What came of the action that the run asked for last.
#[derive(Debug)]
pub enum Event {
    /// The server answered `initialize` with these capabilities.
    Capabilities(ServerCapabilities),
    /// The notification was sent, or the file was opened.
    Sent,
    /// The server answered with the symbols of the file, or with nothing.
    Symbols(Option<DocumentSymbolResponse>),
    /// The server answered with the documents of the references, or with
    /// nothing.
    References(Option<Vec<String>>),
}

/// Where a run stands: what it waits for.
#[derive(Clone, Copy, Debug, PartialEq, Eq, Structural)]
pub enum Phase {
    AwaitCapabilities,
    AwaitInitialized,
    AwaitOpened,
    AwaitSymbols,
    AwaitReferences,
    Finished,
    Failed,
}

/// Everything that a run knows.
pub struct Progress {
    pub phase: Phase,
    /// The file that is being worked on.
    pub file: int,
    /// The symbols of that file, and the one that is being worked on.
    pub sites: Seq<Site>,
    pub site: int,
    /// The graph so far.
    pub nodes: Seq<Seq<char>>,
    pub edges: Seq<(Seq<char>, Seq<char>)>,
}

/// Turning to the file at `file`: it is opened, or the run is complete where
/// no file is left.
pub open spec fn enter_file(files: Seq<Seq<char>>, p: Progress, file: int) -> (Progress, Action) {
    if file >= files.len() {
        (Progress { phase: Phase::Finished, file, sites: Seq::empty(), site: 0, ..p }, Action::Finish)
    } else {
        (
            Progress { phase: Phase::AwaitOpened, file, sites: Seq::empty(), site: 0, ..p },
            Action::Open { file: file as usize },
        )
    }
}

/// Turning to the symbol at `site` of the file that is being worked on: the
/// file becomes a node and the references to the symbol are asked for, or
/// the next file is turned to where no symbol is left.
pub open spec fn enter_site(files: Seq<Seq<char>>, p: Progress, site: int) -> (Progress, Action) {
    if site >= p.sites.len() {
        enter_file(files, p, p.file + 1)
    } else {
        (
            Progress {
                phase: Phase::AwaitReferences,
                site,
                nodes: with(p.nodes, files[p.file]),
                ..p
            },
            Action::References { file: p.file as usize, position: p.sites[site].position },
        )
    }
}

/// The step of a run: where it stands after `event`, and what is to be done
/// next.
///
/// The capabilities are checked first and once: a server that does not
/// provide document symbols, or references, ends the run before any file is
/// touched. Then the files are worked on in their order: each is opened and
/// asked for its symbols; every symbol of the answer, of any depth and any
/// kind, is asked for its references; every reference is recorded. A file
/// or a symbol for which the server has no answer is passed over. An event
/// that answers no action of the run ends it, and a run that has ended
/// takes no event.
pub open spec fn next(files: Seq<Seq<char>>, p: Progress, event: Event) -> (Progress, Action) {
    match (p.phase, event) {
        (Phase::AwaitCapabilities, Event::Capabilities(c)) => if !c.document_symbol_provider {
            (Progress { phase: Phase::Failed, ..p }, Action::Abort(BuildError::NoDocumentSymbols))
        } else if !c.references_provider {
            (Progress { phase: Phase::Failed, ..p }, Action::Abort(BuildError::NoReferences))
        } else {
            (Progress { phase: Phase::AwaitInitialized, ..p }, Action::Initialized)
        },
        (Phase::AwaitInitialized, Event::Sent) => enter_file(files, p, 0),
        (Phase::AwaitOpened, Event::Sent) => (
            Progress { phase: Phase::AwaitSymbols, ..p },
            Action::Symbols { file: p.file as usize },
        ),
        (Phase::AwaitSymbols, Event::Symbols(None)) => enter_file(files, p, p.file + 1),
        (Phase::AwaitSymbols, Event::Symbols(Some(response))) => enter_site(
            files,
            Progress { sites: response.sites(), ..p },
            0,
        ),
        (Phase::AwaitReferences, Event::References(None)) => enter_site(files, p, p.site + 1),
        (Phase::AwaitReferences, Event::References(Some(documents))) => {
            let (nodes, edges) = after_references(
                p.nodes,
                p.edges,
                names(documents@),
                files[p.file],
            );
            enter_site(files, Progress { nodes, edges, ..p }, p.site + 1)
        },
        _ => (Progress { phase: Phase::Failed, ..p }, Action::Abort(BuildError::Unexpected)),
    }
}

/// The place behind `place` in a list of `count` places.
pub(crate) fn place_after(place: usize, count: usize) -> (following: usize)
    requires
        place < count,
    ensures
        following == place + 1,
{
    place + 1
}

/// A run that builds the reference graph of the files under a root.
pub struct Builder {
    root: String,
    files: Vec<String>,
    phase: Phase,
    file: usize,
    sites: Vec<Site>,
    site: usize,
    graph: ReferenceGraph,
}

impl Builder {
    /// The name of the root.
    pub closed spec fn root(&self) -> Seq<char> {
        self.root@
    }

    /// The names of the files, in the order in which they are worked on.
    pub closed spec fn files(&self) -> Seq<Seq<char>> {
        names(self.files@)
    }

    /// Where the run stands.
    pub closed spec fn progress(&self) -> Progress {
        Progress {
            phase: self.phase,
            file: self.file as int,
            sites: self.sites@,
            site: self.site as int,
            nodes: self.graph.nodes(),
            edges: self.graph.edges(),
        }
    }

    /// The run's invariant: the graph is well formed, and the file and the
    /// symbol that are being worked on exist.
    pub closed spec fn wf(&self) -> bool {
        &&& self.graph.wf()
        &&& match self.phase {
            Phase::AwaitOpened | Phase::AwaitSymbols => self.file < self.files@.len(),
            Phase::AwaitReferences => self.file < self.files@.len() && self.site
                < self.sites@.len(),
            _ => true,
        }
    }

    /// Starts a run over `files`, all of them documents under `root`. The
    /// first thing to do is `Action::Initialize`.
    pub fn new(root: String, files: Vec<String>) -> (run: Builder)
        ensures
            run.wf(),
            run.root() == root@,
            run.files() == names(files@),
            run.progress() == (Progress {
                phase: Phase::AwaitCapabilities,
                file: 0,
                sites: Seq::empty(),
                site: 0,
                nodes: Seq::empty(),
                edges: Seq::empty(),
            }),
    {
        Builder {
            root,
            files,
            phase: Phase::AwaitCapabilities,
            file: 0,
            sites: Vec::new(),
            site: 0,
            graph: ReferenceGraph::new(),
        }
    }

    /// What the run is interested in: document symbols, references, the call
    /// hierarchy and workspace symbols.
    pub fn interests(&self) -> (out: Interests)
        ensures
            out == (Interests {
                document_symbols: true,
                references: true,
                call_hierarchy: true,
                workspace_symbols: true,
            }),
    {
        Interests {
            document_symbols: true,
            references: true,
            call_hierarchy: true,
            workspace_symbols: true,
        }
    }

    /// Where the run stands.
    pub fn phase(&self) -> (phase: Phase)
        ensures
            phase == self.progress().phase,
    {
        self.phase
    }

    /// The name of the file at `file`, for the caller that is to open it or
    /// to ask about it.
    pub fn file_name(&self, file: usize) -> (out: Option<&str>)
        ensures
            match out {
                Some(name) => file < self.files().len() && name@ == self.files()[file as int],
                None => file >= self.files().len(),
            },
    {
        if file < self.files.len() {
            Some(self.files[file].as_str())
        } else {
            None
        }
    }

    /// Turns to the file at `file`.
    fn turn_to_file(&mut self, file: usize) -> (action: Action)
        requires
            old(self).graph.wf(),
            file <= old(self).files@.len(),
        ensures
            final(self).wf(),
            final(self).root() == old(self).root(),
            final(self).files() == old(self).files(),
            (final(self).progress(), action) == enter_file(
                old(self).files(),
                old(self).progress(),
                file as int,
            ),
    {
        self.file = file;
        self.sites = Vec::new();
        self.site = 0;
        if file >= self.files.len() {
            self.phase = Phase::Finished;
            Action::Finish
        } else {
            self.phase = Phase::AwaitOpened;
            Action::Open { file }
        }
    }

    /// Turns to the symbol at `site` of the file that is being worked on.
    fn turn_to_site(&mut self, site: usize) -> (action: Action)
        requires
            old(self).graph.wf(),
            old(self).file < old(self).files@.len(),
            site <= old(self).sites@.len(),
        ensures
            final(self).wf(),
            final(self).root() == old(self).root(),
            final(self).files() == old(self).files(),
            (final(self).progress(), action) == enter_site(
                old(self).files(),
                old(self).progress(),
                site as int,
            ),
    {
        if site >= self.sites.len() {
            let following = place_after(self.file, self.files.len());
            self.turn_to_file(following)
        } else {
            self.phase = Phase::AwaitReferences;
            self.site = site;
            self.graph.add_node(self.files[self.file].as_str());
            Action::References { file: self.file, position: self.sites[site].position }
        }
    }

    /// Takes what came of the last action and says what to do next, as
    /// `next` says. Whatever comes, no document and no edge stands twice in
    /// the graph, and no edge leads from a document to itself.
    pub fn step(&mut self, event: Event) -> (action: Action)
        requires
            old(self).wf(),
        ensures
            final(self).wf(),
            final(self).root() == old(self).root(),
            final(self).files() == old(self).files(),
            (final(self).progress(), action) == next(
                old(self).files(),
                old(self).progress(),
                event,
            ),
            final(self).progress().nodes.no_duplicates(),
            final(self).progress().edges.no_duplicates(),
            loop_free(final(self).progress().edges),
    {
        match (self.phase, event) {
            (Phase::AwaitCapabilities, Event::Capabilities(c)) => {
                if !c.document_symbol_provider {
                    self.phase = Phase::Failed;
                    Action::Abort(BuildError::NoDocumentSymbols)
                } else if !c.references_provider {
                    self.phase = Phase::Failed;
                    Action::Abort(BuildError::NoReferences)
                } else {
                    self.phase = Phase::AwaitInitialized;
                    Action::Initialized
                }
            },
            (Phase::AwaitInitialized, Event::Sent) => self.turn_to_file(0),
            (Phase::AwaitOpened, Event::Sent) => {
                self.phase = Phase::AwaitSymbols;
                Action::Symbols { file: self.file }
            },
            (Phase::AwaitSymbols, Event::Symbols(None)) => {
                let following = place_after(self.file, self.files.len());
                self.turn_to_file(following)
            },
            (Phase::AwaitSymbols, Event::Symbols(Some(response))) => {
                self.sites = flatten_symbols(&response);
                self.turn_to_site(0)
            },
            (Phase::AwaitReferences, Event::References(None)) => {
                let following = place_after(self.site, self.sites.len());
                self.turn_to_site(following)
            },
            (Phase::AwaitReferences, Event::References(Some(documents))) => {
                let mut i: usize = 0;
                let ghost symbol = self.files()[self.file as int];
                assert(names(documents@).take(0) =~= Seq::empty());
                while i < documents.len()
                    invariant
                        i <= documents.len(),
                        self.graph.wf(),
                        self.file < self.files@.len(),
                        self.site < self.sites@.len(),
                        self.file == old(self).file,
                        self.site == old(self).site,
                        self.sites == old(self).sites,
                        self.files == old(self).files,
                        self.root == old(self).root,
                        self.phase == old(self).phase,
                        symbol == self.files()[self.file as int],
                        (self.graph.nodes(), self.graph.edges()) == after_references(
                            old(self).graph.nodes(),
                            old(self).graph.edges(),
                            names(documents@).take(i as int),
                            symbol,
                        ),
                    decreases documents.len() - i,
                {
                    proof {
                        assert(names(documents@).take(i + 1).drop_last() =~= names(
                            documents@,
                        ).take(i as int));
                    }
                    self.graph.add_reference(
                        documents[i].as_str(),
                        self.files[self.file].as_str(),
                    );
                    i = i + 1;
                }
                assert(names(documents@).take(i as int) =~= names(documents@));
                let following = place_after(self.site, self.sites.len());
                self.turn_to_site(following)
            },
            _ => {
                self.phase = Phase::Failed;
                Action::Abort(BuildError::Unexpected)
            },
        }
    }

    /// Hands out the graph of a run that is complete: the documents and the
    /// edges that were recorded, each name taken relative to the root, and
    /// nothing that is not under the root. A run that is not complete hands
    /// out nothing.
    pub fn finish(self) -> (out: Option<(Vec<String>, Vec<Connection>)>)
        requires
            self.wf(),
        ensures
            match out {
                Some(graph) => {
                    &&& self.progress().phase == Phase::Finished
                    &&& names(graph.0@) == relative_nodes(
                        self.progress().nodes,
                        self.root(),
                    )
                    &&& links(graph.1@) == relative_edges(
                        self.progress().edges,
                        self.root(),
                    )
                    &&& names(graph.0@).no_duplicates()
                    &&& links(graph.1@).no_duplicates()
                    &&& loop_free(links(graph.1@))
                },
                None => self.progress().phase != Phase::Finished,
            },
    {
        match self.phase {
            Phase::Finished => Some(self.graph.finish(self.root.as_str())),
            _ => None,
        }
    }
}

/// Whether an action concerns one file: opening it, or asking about it.
pub open spec fn touches_file(action: Action) -> bool {
    action is Open || action is Symbols || action is References
}

/// The actions that a run asks for, one for each event of `events`, when it
/// stands at `p` before the first of them.
pub open spec fn actions(files: Seq<Seq<char>>, p: Progress, events: Seq<Event>) -> Seq<Action>
    decreases events.len(),
{
    if events.len() == 0 {
        Seq::empty()
    } else {
        let (after, action) = next(files, p, events[0]);
        seq![action] + actions(files, after, events.drop_first())
    }
}

/// Where a run stands after the events of `events`, when it stood at `p`
/// before the first of them.
pub open spec fn progress_after(files: Seq<Seq<char>>, p: Progress, events: Seq<Event>) -> Progress
    decreases events.len(),
{
    if events.len() == 0 {
        p
    } else {
        progress_after(files, next(files, p, events[0]).0, events.drop_first())
    }
}

/// A run that has been given up asks for nothing more, whatever comes.
pub proof fn lemma_failed_stays_failed(files: Seq<Seq<char>>, p: Progress, events: Seq<Event>)
    requires
        p.phase == Phase::Failed,
    ensures
        forall|i: int|
            0 <= i < actions(files, p, events).len() ==> #[trigger] actions(files, p, events)[i]
                == Action::Abort(BuildError::Unexpected),
        progress_after(files, p, events) == p,
    decreases events.len(),
{
    if events.len() > 0 {
        let (after, action) = next(files, p, events[0]);
        assert(after == p);
        lemma_failed_stays_failed(files, p, events.drop_first());
        let rest = actions(files, p, events.drop_first());
        assert forall|i: int| 0 <= i < actions(files, p, events).len() implies #[trigger] actions(
            files,
            p,
            events,
        )[i] == Action::Abort(BuildError::Unexpected) by {
            if i > 0 {
                assert(actions(files, p, events)[i] == rest[i - 1]);
            }
        }
    }
}

/// The capability gate. When the server answers `initialize` without the
/// capability to provide document symbols, or without the capability to
/// provide references, the run is given up on the spot, and no action that
/// it ever asks for touches a file, whatever events follow. The graph stays
/// as it was.
pub proof fn lemma_capability_gate(
    files: Seq<Seq<char>>,
    p: Progress,
    capabilities: ServerCapabilities,
    later: Seq<Event>,
)
    requires
        p.phase == Phase::AwaitCapabilities,
        !capabilities.document_symbol_provider || !capabilities.references_provider,
    ensures
        next(files, p, Event::Capabilities(capabilities)).1 == Action::Abort(
            if !capabilities.document_symbol_provider {
                BuildError::NoDocumentSymbols
            } else {
                BuildError::NoReferences
            },
        ),
        forall|i: int|
            0 <= i < later.len() + 1 ==> !touches_file(
                #[trigger] actions(files, p, seq![Event::Capabilities(capabilities)] + later)[i],
            ),
        progress_after(files, p, seq![Event::Capabilities(capabilities)] + later).nodes == p.nodes,
        progress_after(files, p, seq![Event::Capabilities(capabilities)] + later).edges == p.edges,
{
    let first = Event::Capabilities(capabilities);
    let events = seq![first] + later;
    let (after, action) = next(files, p, first);
    assert(events[0] == first);
    assert(events.drop_first() =~= later);
    lemma_failed_stays_failed(files, after, later);
    let rest = actions(files, after, later);
    assert(actions(files, p, events) == seq![action] + rest);
    assert forall|i: int| 0 <= i < later.len() + 1 implies !touches_file(
        #[trigger] actions(files, p, events)[i],
    ) by {
        lemma_actions_len(files, after, later);
        if i > 0 {
            assert(actions(files, p, events)[i] == rest[i - 1]);
        }
    }
}

/// A run asks for one action for each event.
pub proof fn lemma_actions_len(files: Seq<Seq<char>>, p: Progress, events: Seq<Event>)
    ensures
        actions(files, p, events).len() == events.len(),
    decreases events.len(),
{
    if events.len() > 0 {
        lemma_actions_len(files, next(files, p, events[0]).0, events.drop_first());
    }
}

/// Whether the graph of a run has no edge from a document to itself.
pub open spec fn is_loop_free(p: Progress) -> bool {
    loop_free(p.edges)
}

/// No step of a run brings in an edge from a document to itself.
pub proof fn lemma_step_keeps_loop_free(files: Seq<Seq<char>>, p: Progress, event: Event)
    requires
        is_loop_free(p),
    ensures
        is_loop_free(next(files, p, event).0),
{
    match (p.phase, event) {
        (Phase::AwaitReferences, Event::References(Some(documents))) => {
            lemma_after_references(
                p.nodes,
                p.edges,
                names(documents@),
                files[p.file],
            );
        },
        _ => {},
    }
}

/// No run ever has an edge from a document to itself: a graph without such
/// an edge, as the graph of a new run is, has none after any events.
pub proof fn lemma_run_is_loop_free(files: Seq<Seq<char>>, p: Progress, events: Seq<Event>)
    requires
        is_loop_free(p),
    ensures
        is_loop_free(progress_after(files, p, events)),
    decreases events.len(),
{
    if events.len() > 0 {
        lemma_step_keeps_loop_free(files, p, events[0]);
        lemma_run_is_loop_free(files, next(files, p, events[0]).0, events.drop_first());
    }
}

/// Whether two runs stand at the same place: they differ in their graphs
/// at most.
pub open spec fn same_place(p: Progress, q: Progress) -> bool {
    p.phase == q.phase && p.file == q.file && p.site == q.site && p.sites == q.sites
}

/// Whether the graph of `q` holds the graph of `p`.
pub open spec fn holds_graph(q: Progress, p: Progress) -> bool {
    &&& forall|x: Seq<char>| p.nodes.contains(x) ==> q.nodes.contains(x)
    &&& forall|x: (Seq<char>, Seq<char>)| p.edges.contains(x) ==> q.edges.contains(x)
}

/// Whether the graph of `grown` holds nothing but what the graphs of `q`
/// and `p` hold.
pub open spec fn holds_no_more(grown: Progress, q: Progress, p: Progress) -> bool {
    &&& forall|x: Seq<char>| grown.nodes.contains(x) ==> q.nodes.contains(x) || p.nodes.contains(x)
    &&& forall|x: (Seq<char>, Seq<char>)|
        grown.edges.contains(x) ==> q.edges.contains(x) || p.edges.contains(x)
}

/// Turning to a symbol does the same to two runs at the same place, and
/// adds the same to their graphs.
proof fn lemma_enter_site_adds(files: Seq<Seq<char>>, p: Progress, q: Progress, site: int)
    requires
        same_place(p, q),
        holds_graph(q, p),
    ensures
        enter_site(files, p, site).1 == enter_site(files, q, site).1,
        same_place(enter_site(files, p, site).0, enter_site(files, q, site).0),
        holds_graph(enter_site(files, q, site).0, enter_site(files, p, site).0),
        holds_no_more(enter_site(files, q, site).0, q, enter_site(files, p, site).0),
        holds_graph(enter_site(files, p, site).0, p),
{
    lemma_with_holds(p.nodes, files[p.file]);
    lemma_with_holds(q.nodes, files[p.file]);
}

/// One event does the same to two runs at the same place, and adds the same
/// to their graphs: what it adds to the smaller graph it adds to the larger,
/// and it adds nothing else to the larger.
pub proof fn lemma_step_adds(files: Seq<Seq<char>>, p: Progress, q: Progress, event: Event)
    requires
        same_place(p, q),
        holds_graph(q, p),
    ensures
        next(files, p, event).1 == next(files, q, event).1,
        same_place(next(files, p, event).0, next(files, q, event).0),
        holds_graph(next(files, q, event).0, next(files, p, event).0),
        holds_no_more(next(files, q, event).0, q, next(files, p, event).0),
{
    match (p.phase, event) {
        (Phase::AwaitSymbols, Event::Symbols(Some(response))) => {
            lemma_enter_site_adds(
                files,
                Progress { sites: response.sites(), ..p },
                Progress { sites: response.sites(), ..q },
                0,
            );
        },
        (Phase::AwaitReferences, Event::References(None)) => {
            lemma_enter_site_adds(files, p, q, p.site + 1);
        },
        (Phase::AwaitReferences, Event::References(Some(documents))) => {
            let symbol = files[p.file];
            let mine = after_references(p.nodes, p.edges, names(documents@), symbol);
            let other = after_references(q.nodes, q.edges, names(documents@), symbol);
            lemma_after_references(p.nodes, p.edges, names(documents@), symbol);
            lemma_after_references(q.nodes, q.edges, names(documents@), symbol);
            let mine_after = Progress { nodes: mine.0, edges: mine.1, ..p };
            let other_after = Progress { nodes: other.0, edges: other.1, ..q };
            assert(holds_graph(other_after, mine_after));
            assert(holds_no_more(other_after, q, mine_after));
            lemma_enter_site_adds(files, mine_after, other_after, p.site + 1);
            let pn = enter_site(files, mine_after, p.site + 1).0;
            let qn = enter_site(files, other_after, p.site + 1).0;
            assert forall|x: Seq<char>| qn.nodes.contains(x) implies q.nodes.contains(x)
                || pn.nodes.contains(x) by {
                if other_after.nodes.contains(x) && !q.nodes.contains(x) {
                    assert(mine_after.nodes.contains(x));
                }
            }
            assert forall|x: (Seq<char>, Seq<char>)| qn.edges.contains(x) implies q.edges.contains(
                x,
            ) || pn.edges.contains(x) by {
                if other_after.edges.contains(x) && !q.edges.contains(x) {
                    assert(mine_after.edges.contains(x));
                }
            }
        },
        _ => {},
    }
}

/// The same events do the same to two runs at the same place, and add the
/// same to their graphs.
pub proof fn lemma_run_adds(files: Seq<Seq<char>>, p: Progress, q: Progress, events: Seq<Event>)
    requires
        same_place(p, q),
        holds_graph(q, p),
    ensures
        actions(files, p, events) == actions(files, q, events),
        same_place(progress_after(files, p, events), progress_after(files, q, events)),
        holds_graph(progress_after(files, q, events), progress_after(files, p, events)),
        holds_no_more(progress_after(files, q, events), q, progress_after(files, p, events)),
    decreases events.len(),
{
    if events.len() > 0 {
        let mine_next = next(files, p, events[0]).0;
        let other_next = next(files, q, events[0]).0;
        lemma_step_adds(files, p, q, events[0]);
        lemma_run_adds(files, mine_next, other_next, events.drop_first());
        lemma_run_grows(files, p, events);
        let pn = progress_after(files, p, events);
        let qn = progress_after(files, q, events);
        lemma_run_grows(files, mine_next, events.drop_first());
        assert forall|x: Seq<char>| qn.nodes.contains(x) implies q.nodes.contains(x)
            || pn.nodes.contains(x) by {
            if other_next.nodes.contains(x) && !q.nodes.contains(x) {
                assert(mine_next.nodes.contains(x));
            }
        }
        assert forall|x: (Seq<char>, Seq<char>)| qn.edges.contains(x) implies q.edges.contains(x)
            || pn.edges.contains(x) by {
            if other_next.edges.contains(x) && !q.edges.contains(x) {
                assert(mine_next.edges.contains(x));
            }
        }
    }
}

/// The graph of a run only grows.
pub proof fn lemma_run_grows(files: Seq<Seq<char>>, p: Progress, events: Seq<Event>)
    ensures
        holds_graph(progress_after(files, p, events), p),
    decreases events.len(),
{
    if events.len() > 0 {
        let mine_next = next(files, p, events[0]).0;
        lemma_step_adds(files, p, p, events[0]);
        lemma_step_grows(files, p, events[0]);
        lemma_run_grows(files, mine_next, events.drop_first());
    }
}

/// The graph of a run does not shrink in a step.
pub proof fn lemma_step_grows(files: Seq<Seq<char>>, p: Progress, event: Event)
    ensures
        holds_graph(next(files, p, event).0, p),
{
    match (p.phase, event) {
        (Phase::AwaitSymbols, Event::Symbols(Some(response))) => {
            lemma_with_holds(p.nodes, files[p.file]);
        },
        (Phase::AwaitReferences, Event::References(None)) => {
            lemma_with_holds(p.nodes, files[p.file]);
        },
        (Phase::AwaitReferences, Event::References(Some(documents))) => {
            let symbol = files[p.file];
            let mine = after_references(p.nodes, p.edges, names(documents@), symbol);
            lemma_after_references(p.nodes, p.edges, names(documents@), symbol);
            lemma_with_holds(mine.0, files[p.file]);
        },
        _ => {},
    }
}

/// Where a run over an empty graph stands at its start.
pub open spec fn fresh() -> Progress {
    Progress {
        phase: Phase::AwaitCapabilities,
        file: 0,
        sites: Seq::empty(),
        site: 0,
        nodes: Seq::empty(),
        edges: Seq::empty(),
    }
}

/// Running again changes nothing. A second run that sees the same events as
/// the first, and starts on the graph that the first has built, asks for
/// the same actions and ends with the same set of documents and the same
/// set of edges: everything that it finds is in the graph already.
pub proof fn lemma_rerun_adds_nothing(files: Seq<Seq<char>>, events: Seq<Event>)
    ensures
        ({
            let first = progress_after(files, fresh(), events);
            let second = progress_after(
                files,
                Progress { nodes: first.nodes, edges: first.edges, ..fresh() },
                events,
            );
            &&& actions(files, fresh(), events) == actions(
                files,
                Progress { nodes: first.nodes, edges: first.edges, ..fresh() },
                events,
            )
            &&& second.nodes.to_set() == first.nodes.to_set()
            &&& second.edges.to_set() == first.edges.to_set()
        }),
{
    broadcast use vstd::set::group_set_axioms;

    let first = progress_after(files, fresh(), events);
    let again = Progress { nodes: first.nodes, edges: first.edges, ..fresh() };
    let second = progress_after(files, again, events);
    lemma_run_adds(files, fresh(), again, events);
    lemma_run_grows(files, again, events);
    assert forall|x: Seq<char>| second.nodes.to_set().contains(x) <==> first.nodes.to_set().contains(
        x,
    ) by {
        assert(second.nodes.to_set().contains(x) == second.nodes.contains(x));
        assert(first.nodes.to_set().contains(x) == first.nodes.contains(x));
    }
    assert(second.nodes.to_set() =~= first.nodes.to_set());
    assert forall|x: (Seq<char>, Seq<char>)|
        second.edges.to_set().contains(x) <==> first.edges.to_set().contains(x) by {
        assert(second.edges.to_set().contains(x) == second.edges.contains(x));
        assert(first.edges.to_set().contains(x) == first.edges.contains(x));
    }
    assert(second.edges.to_set() =~= first.edges.to_set());
}

} // verus!
