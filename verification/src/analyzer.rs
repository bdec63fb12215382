//! The run that collects the call graph: which question goes to the server
//! next, given what the server has answered so far.
//!
//! The run itself sends nothing and reads nothing. Its caller asks each
//! question, and hands back the answer.

use crate::builder::place_after;
use crate::symbols::{DocumentSymbolResponse, Position};
use crate::usage::{
    callable_items, declarations, get_function_calls, get_project_functions, project_functions,
    recorded_calls, CallHierarchyItem,
};
use vstd::prelude::*;

verus! {

/// What the caller of a run is to ask next.
#[derive(Clone, Copy, Debug, PartialEq, Eq, Structural)]
pub enum Query {
    /// The symbols of the file at this place in the list.
    Symbols { file: usize },
    /// The call hierarchy at the declaration at this place in the list of
    /// declarations.
    Prepare { declaration: usize },
    /// The callers of the item at this place in the answer to the last
    /// `Prepare`.
    Callers { item: usize },
    /// Nothing: the call graph is complete.
    Finish,
    /// Nothing: an answer came that answers no question of the run.
    Abort,
}

/// What the server answered to the question that the run asked last; `None`
/// where it had no answer.
#[derive(Debug)]
pub enum Answer {
    Symbols(Option<DocumentSymbolResponse>),
    Prepared(Option<Vec<CallHierarchyItem>>),
    Callers(Option<Vec<CallHierarchyItem>>),
}

/// Where a run stands: what it waits for.
#[derive(Clone, Copy, Debug, PartialEq, Eq, Structural)]
pub enum Stage {
    AwaitSymbols,
    AwaitPrepared,
    AwaitCallers,
    Finished,
    Failed,
}

/// Everything that a run knows.
pub struct Standing {
    pub stage: Stage,
    /// The answers about the files asked so far, each with the file's name.
    pub documents: Seq<(String, Option<DocumentSymbolResponse>)>,
    /// The declarations of functions and methods, once every file has been
    /// asked, and the one that is being worked on.
    pub declarations: Seq<(Seq<char>, Position)>,
    pub declaration: int,
    /// The answer to the last `Prepare`, and the item that is being worked
    /// on.
    pub prepared: Seq<CallHierarchyItem>,
    pub item: int,
    /// The items whose callers were asked for, each with the answer.
    pub answers: Seq<(CallHierarchyItem, Option<Vec<CallHierarchyItem>>)>,
}

/// The place of the first item at or behind `from` that can be called; the
/// length of the list where there is none.
pub open spec fn first_callable(items: Seq<CallHierarchyItem>, from: int) -> int
    decreases items.len() - from,
{
    if from < 0 || from >= items.len() {
        items.len() as int
    } else if items[from].kind.is_callable() {
        from
    } else {
        first_callable(items, from + 1)
    }
}

/// Turning to the declaration at `declaration`: its call hierarchy is asked
/// for, or the run is complete where no declaration is left.
pub open spec fn to_declaration(s: Standing, declaration: int) -> (Standing, Query) {
    if declaration >= s.declarations.len() {
        (
            Standing { stage: Stage::Finished, declaration, prepared: Seq::empty(), item: 0, ..s },
            Query::Finish,
        )
    } else {
        (
            Standing {
                stage: Stage::AwaitPrepared,
                declaration,
                prepared: Seq::empty(),
                item: 0,
                ..s
            },
            Query::Prepare { declaration: declaration as usize },
        )
    }
}

/// Turning to the items at and behind `item` of the last answer: the
/// callers of the first that can be called are asked for, or the next
/// declaration is turned to where none is left.
pub open spec fn to_item(s: Standing, item: int) -> (Standing, Query) {
    let found = first_callable(s.prepared, item);
    if found >= s.prepared.len() {
        to_declaration(s, s.declaration + 1)
    } else {
        (
            Standing { stage: Stage::AwaitCallers, item: found, ..s },
            Query::Callers { item: found as usize },
        )
    }
}

/// The step of a run: where it stands after `answer`, and what is to be
/// asked next.
///
/// First every file is asked for its symbols, in the order of the files.
/// When the last has answered, the declarations of functions and methods
/// are taken from the answers. Then the call hierarchy is asked for at each
/// declaration, and the callers of each function and method that it names;
/// items of other kinds are passed over, and so is a declaration for which
/// the server has no answer. An answer that answers no question of the run
/// ends it, and a run that has ended takes no answer.
pub open spec fn after(files: Seq<String>, s: Standing, answer: Answer) -> (Standing, Query) {
    match (s.stage, answer) {
        (Stage::AwaitSymbols, Answer::Symbols(symbols)) => {
            let documents = s.documents.push((files[s.documents.len() as int], symbols));
            if documents.len() < files.len() {
                (Standing { documents, ..s }, Query::Symbols { file: documents.len() as usize })
            } else {
                to_declaration(
                    Standing { documents, declarations: project_functions(documents), ..s },
                    0,
                )
            }
        },
        (Stage::AwaitPrepared, Answer::Prepared(None)) => to_declaration(s, s.declaration + 1),
        (Stage::AwaitPrepared, Answer::Prepared(Some(items))) => to_item(
            Standing { prepared: items@, ..s },
            0,
        ),
        (Stage::AwaitCallers, Answer::Callers(callers)) => to_item(
            Standing { answers: s.answers.push((s.prepared[s.item], callers)), ..s },
            s.item + 1,
        ),
        _ => (Standing { stage: Stage::Failed, ..s }, Query::Abort),
    }
}

/// Where a run over `files` stands at its start, and its first question.
pub open spec fn at_start(files: Seq<String>) -> (Standing, Query) {
    let fresh = Standing {
        stage: Stage::AwaitSymbols,
        documents: Seq::empty(),
        declarations: Seq::empty(),
        declaration: 0,
        prepared: Seq::empty(),
        item: 0,
        answers: Seq::empty(),
    };
    if files.len() == 0 {
        to_declaration(fresh, 0)
    } else {
        (fresh, Query::Symbols { file: 0 })
    }
}

/// A run that collects the call graph of the files under a root.
pub struct Analyzer {
    root: String,
    files: Vec<String>,
    stage: Stage,
    documents: Vec<(String, Option<DocumentSymbolResponse>)>,
    declarations: Vec<(String, Position)>,
    declaration: usize,
    prepared: Vec<CallHierarchyItem>,
    item: usize,
    answers: Vec<(CallHierarchyItem, Option<Vec<CallHierarchyItem>>)>,
}

impl Analyzer {
    /// The path of the root.
    pub closed spec fn root(&self) -> Seq<char> {
        self.root@
    }

    /// The names of the files, in the order in which they are asked.
    pub closed spec fn files(&self) -> Seq<String> {
        self.files@
    }

    /// Where the run stands.
    pub closed spec fn standing(&self) -> Standing {
        Standing {
            stage: self.stage,
            documents: self.documents@,
            declarations: declarations(self.declarations@),
            declaration: self.declaration as int,
            prepared: self.prepared@,
            item: self.item as int,
            answers: self.answers@,
        }
    }

    /// The run's invariant: the file, the declaration and the item that are
    /// being worked on exist, and the item can be called.
    pub closed spec fn wf(&self) -> bool {
        match self.stage {
            Stage::AwaitSymbols => self.documents@.len() < self.files@.len(),
            Stage::AwaitPrepared => self.declaration < self.declarations@.len(),
            Stage::AwaitCallers => self.declaration < self.declarations@.len() && self.item
                < self.prepared@.len() && self.prepared@[self.item as int].kind.is_callable(),
            _ => true,
        }
    }

    /// Starts a run over `files`, all of them under the path `root`, and
    /// asks its first question.
    pub fn start(root: String, files: Vec<String>) -> (out: (Analyzer, Query))
        ensures
            out.0.wf(),
            out.0.root() == root@,
            out.0.files() == files@,
            (out.0.standing(), out.1) == at_start(files@),
    {
        let mut run = Analyzer {
            root,
            files,
            stage: Stage::AwaitSymbols,
            documents: Vec::new(),
            declarations: Vec::new(),
            declaration: 0,
            prepared: Vec::new(),
            item: 0,
            answers: Vec::new(),
        };
        assert(declarations(run.declarations@) =~= Seq::empty());
        if run.files.len() == 0 {
            let query = run.turn_to_declaration(0);
            (run, query)
        } else {
            (run, Query::Symbols { file: 0 })
        }
    }

    /// Where the run stands.
    pub fn stage(&self) -> (stage: Stage)
        ensures
            stage == self.standing().stage,
    {
        self.stage
    }

    /// The name of the file at `file`, for the caller that is to ask about
    /// it.
    pub fn file_name(&self, file: usize) -> (out: Option<&str>)
        ensures
            match out {
                Some(name) => file < self.files().len() && name@ == self.files()[file as int]@,
                None => file >= self.files().len(),
            },
    {
        if file < self.files.len() {
            Some(self.files[file].as_str())
        } else {
            None
        }
    }

    /// The declaration at `declaration`, for the caller that is to ask
    /// about it: the name of its document and its place in it.
    pub fn declaration_at(&self, declaration: usize) -> (out: Option<(&str, Position)>)
        ensures
            match out {
                Some((name, position)) => declaration < self.standing().declarations.len() && (
                    name@,
                    position,
                ) == self.standing().declarations[declaration as int],
                None => declaration >= self.standing().declarations.len(),
            },
    {
        if declaration < self.declarations.len() {
            Some((self.declarations[declaration].0.as_str(), self.declarations[declaration].1))
        } else {
            None
        }
    }

    /// Turns to the declaration at `declaration`.
    fn turn_to_declaration(&mut self, declaration: usize) -> (query: Query)
        requires
            declaration <= old(self).declarations@.len(),
        ensures
            final(self).wf(),
            final(self).root() == old(self).root(),
            final(self).files() == old(self).files(),
            (final(self).standing(), query) == to_declaration(
                old(self).standing(),
                declaration as int,
            ),
    {
        self.declaration = declaration;
        self.prepared = Vec::new();
        self.item = 0;
        if declaration >= self.declarations.len() {
            self.stage = Stage::Finished;
            Query::Finish
        } else {
            self.stage = Stage::AwaitPrepared;
            Query::Prepare { declaration }
        }
    }

    /// Turns to the items at and behind `item` of the last answer.
    fn turn_to_item(&mut self, item: usize) -> (query: Query)
        requires
            old(self).declaration < old(self).declarations@.len(),
            item <= old(self).prepared@.len(),
        ensures
            final(self).wf(),
            final(self).root() == old(self).root(),
            final(self).files() == old(self).files(),
            (final(self).standing(), query) == to_item(old(self).standing(), item as int),
    {
        let mut found: usize = item;
        while found < self.prepared.len() && !self.prepared[found].kind.callable()
            invariant
                item <= found <= self.prepared@.len(),
                self.prepared@ == old(self).prepared@,
                first_callable(self.prepared@, item as int) == first_callable(
                    self.prepared@,
                    found as int,
                ),
            decreases self.prepared.len() - found,
        {
            found = found + 1;
        }
        if found >= self.prepared.len() {
            let following = place_after(self.declaration, self.declarations.len());
            self.turn_to_declaration(following)
        } else {
            self.stage = Stage::AwaitCallers;
            self.item = found;
            Query::Callers { item: found }
        }
    }

    /// Takes the answer to the last question and says what to ask next, as
    /// `after` says. The callers are asked for of functions and methods
    /// only.
    pub fn step(&mut self, answer: Answer) -> (query: Query)
        requires
            old(self).wf(),
        ensures
            final(self).wf(),
            final(self).root() == old(self).root(),
            final(self).files() == old(self).files(),
            (final(self).standing(), query) == after(
                old(self).files(),
                old(self).standing(),
                answer,
            ),
            query matches Query::Callers { item } ==> item < final(self).standing().prepared.len()
                && final(self).standing().prepared[item as int].kind.is_callable(),
    {
        match (self.stage, answer) {
            (Stage::AwaitSymbols, Answer::Symbols(symbols)) => {
                let name = self.files[self.documents.len()].clone();
                self.documents.push((name, symbols));
                if self.documents.len() < self.files.len() {
                    Query::Symbols { file: self.documents.len() }
                } else {
                    self.declarations = get_project_functions(&self.documents);
                    self.turn_to_declaration(0)
                }
            },
            (Stage::AwaitPrepared, Answer::Prepared(None)) => {
                let following = place_after(self.declaration, self.declarations.len());
                self.turn_to_declaration(following)
            },
            (Stage::AwaitPrepared, Answer::Prepared(Some(items))) => {
                self.prepared = items;
                self.turn_to_item(0)
            },
            (Stage::AwaitCallers, Answer::Callers(callers)) => {
                let asked = self.prepared[self.item].duplicate();
                self.answers.push((asked, callers));
                let following = place_after(self.item, self.prepared.len());
                self.turn_to_item(following)
            },
            _ => {
                self.stage = Stage::Failed;
                Query::Abort
            },
        }
    }

    /// Hands out the call graph of a run that is complete: the functions
    /// and methods whose callers were asked for, and the calls into them
    /// from documents under the root, each as caller and callee. A run that
    /// is not complete hands out nothing.
    pub fn finish(self) -> (out: Option<
        (Vec<CallHierarchyItem>, Vec<(CallHierarchyItem, CallHierarchyItem)>),
    >)
        ensures
            match out {
                Some(graph) => {
                    &&& self.standing().stage == Stage::Finished
                    &&& graph.0@ == callable_items(self.standing().answers)
                    &&& graph.1@ == recorded_calls(self.standing().answers, self.root())
                },
                None => self.standing().stage != Stage::Finished,
            },
    {
        match self.stage {
            Stage::Finished => Some(get_function_calls(&self.answers, self.root.as_str())),
            _ => None,
        }
    }
}

} // verus!
