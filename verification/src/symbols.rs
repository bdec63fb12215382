//! Symbols of a document as a language server reports them.

use vstd::prelude::*;

verus! {

/// A place in a document: a line and a character on it, both counted from zero.
#[derive(Clone, Copy, Debug, PartialEq, Eq, Structural)]
pub struct Position {
    pub line: u32,
    pub character: u32,
}

/// A stretch of a document, from `start` up to `end`.
#[derive(Clone, Copy, Debug, PartialEq, Eq, Structural)]
pub struct Range {
    pub start: Position,
    pub end: Position,
}

/// The kind of a symbol, by its number in the protocol.
#[derive(Clone, Copy, Debug, PartialEq, Eq, Structural)]
pub struct SymbolKind(pub i32);

/// The number of the kind `Method`.
pub const METHOD: i32 = 6;

/// The number of the kind `Function`.
pub const FUNCTION: i32 = 12;

impl SymbolKind {
    /// Whether the symbol can be called: a function or a method.
    pub open spec fn is_callable(self) -> bool {
        self.0 == FUNCTION || self.0 == METHOD
    }

    /// Whether the symbol can be called: a function or a method.
    pub fn callable(self) -> (r: bool)
        ensures
            r == self.is_callable(),
    {
        self.0 == FUNCTION || self.0 == METHOD
    }
}

/// A symbol of a document with the symbols declared inside it.
#[derive(Debug)]
pub struct DocumentSymbol {
    pub name: String,
    pub kind: SymbolKind,
    pub range: Range,
    pub selection_range: Range,
    pub children: Vec<DocumentSymbol>,
}

/// A symbol of a document, reported without nesting.
#[derive(Clone, Debug)]
pub struct SymbolInformation {
    pub name: String,
    pub kind: SymbolKind,
    pub range: Range,
}

/// What a server answers when asked for the symbols of a document.
#[derive(Debug)]
pub enum DocumentSymbolResponse {
    Flat(Vec<SymbolInformation>),
    Nested(Vec<DocumentSymbol>),
}

/// A symbol taken out of its tree: what it is and where it is declared.
#[derive(Clone, Copy, Debug, PartialEq, Eq, Structural)]
pub struct Site {
    pub kind: SymbolKind,
    pub position: Position,
}

/// The symbols of a forest in the order in which a reader meets them: each
/// symbol before the symbols declared inside it, and those before the next
/// symbol beside it.
pub open spec fn flat_forest(forest: Seq<DocumentSymbol>) -> Seq<Site>
    decreases forest,
{
    if forest.len() == 0 {
        Seq::empty()
    } else {
        flat_forest(forest.drop_last()) + flat_tree(forest.last())
    }
}

/// The symbols of one tree: the symbol itself, then the symbols inside it.
pub open spec fn flat_tree(symbol: DocumentSymbol) -> Seq<Site>
    decreases symbol,
{
    seq![Site { kind: symbol.kind, position: symbol.selection_range.start }] + flat_forest(
        symbol.children@,
    )
}

/// The symbols of a list reported without nesting, in the order of the list.
pub open spec fn flat_list(list: Seq<SymbolInformation>) -> Seq<Site> {
    list.map_values(|s: SymbolInformation| Site { kind: s.kind, position: s.range.start })
}

impl DocumentSymbolResponse {
    /// Every symbol of the answer, in reading order.
    pub open spec fn sites(&self) -> Seq<Site> {
        match *self {
            DocumentSymbolResponse::Flat(list) => flat_list(list@),
            DocumentSymbolResponse::Nested(forest) => flat_forest(forest@),
        }
    }
}

/// The flat form of a forest that ends in one more tree.
pub proof fn lemma_flat_forest_push(forest: Seq<DocumentSymbol>, next: DocumentSymbol)
    ensures
        flat_forest(forest.push(next)) == flat_forest(forest) + flat_tree(next),
{
    assert(forest.push(next).drop_last() =~= forest);
}

/// Appends every symbol of `forest` to `out`, in reading order.
pub fn flatten_into(forest: &Vec<DocumentSymbol>, out: &mut Vec<Site>)
    ensures
        final(out)@ == old(out)@ + flat_forest(forest@),
    decreases forest@,
{
    let mut i: usize = 0;
    assert(forest@.take(0) =~= Seq::<DocumentSymbol>::empty());
    assert(out@ =~= old(out)@ + flat_forest(forest@.take(0)));
    while i < forest.len()
        invariant
            i <= forest.len(),
            out@ == old(out)@ + flat_forest(forest@.take(i as int)),
        decreases forest.len() - i,
    {
        let symbol = &forest[i];
        let ghost before = out@;
        out.push(Site { kind: symbol.kind, position: symbol.selection_range.start });
        flatten_into(&symbol.children, out);
        proof {
            assert(out@ =~= before + flat_tree(*symbol));
            assert(forest@.take(i + 1) =~= forest@.take(i as int).push(*symbol));
            lemma_flat_forest_push(forest@.take(i as int), *symbol);
        }
        i = i + 1;
    }
    assert(forest@.take(i as int) =~= forest@);
}

/// Every symbol of the answer, in reading order, whatever its kind.
pub fn flatten_symbols(response: &DocumentSymbolResponse) -> (out: Vec<Site>)
    ensures
        out@ == response.sites(),
{
    let mut out: Vec<Site> = Vec::new();
    match response {
        DocumentSymbolResponse::Flat(list) => {
            let mut i: usize = 0;
            while i < list.len()
                invariant
                    i <= list.len(),
                    out@ == flat_list(list@.take(i as int)),
                decreases list.len() - i,
            {
                out.push(Site { kind: list[i].kind, position: list[i].range.start });
                i = i + 1;
                assert(out@ =~= flat_list(list@.take(i as int)));
            }
            assert(list@.take(i as int) =~= list@);
        },
        DocumentSymbolResponse::Nested(forest) => {
            flatten_into(forest, &mut out);
        },
    }
    out
}

} // verus!
