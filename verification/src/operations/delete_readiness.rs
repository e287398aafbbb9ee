//! Per-symbol deletion verdict.
//!
//! `safe: true` is deliberately unreachable here. Proving that nothing references a symbol needs a
//! complete exact reference query over the whole project universe; the graph can only show what
//! it indexed. So this operation answers `false` when it finds references and `UNPROVEN` when it
//! does not, and says which risk signal stopped it.

use crate::contract;
use crate::evidence;
use crate::evidence::Risk;
use crate::graph::{Edge, Node, Repository};
use crate::json;
use crate::json::{Fields, Items, Json, JsonView};
use crate::operations;
use crate::resolve;
use crate::text;
use crate::words;
use vstd::prelude::*;
use vstd::string::*;

verus! {

/// How many references are ever listed.
pub const MAX_REFERENCES: usize = 200;

/// The answer where the symbol is not in the graph.
pub open spec fn absent(symbol: Seq<char>) -> JsonView {
    JsonView::empty().with_text("status"@, "NOT_FOUND"@).with_text(
        "reason"@,
        "the selected symbol is not present in the active graph"@,
    ).with_text("symbol"@, symbol)
}

/// One reference as it is listed.
pub open spec fn reference_value(edge: Edge) -> JsonView {
    JsonView::empty().with_text("relation"@, edge.kind@).with_text("provenance"@, edge.evidence@)
}

/// The references that the first edges make to a symbol, as many as are listed.
///
/// Containment is structure, not use: a file containing a symbol is not a caller of it.
pub open spec fn references(edges: Seq<Edge>, id: Seq<char>) -> Seq<JsonView>
    decreases edges.len(),
{
    if edges.len() == 0 {
        Seq::empty()
    } else {
        let before = references(edges.drop_last(), id);
        let edge = edges.last();
        if before.len() < MAX_REFERENCES && edge.target@ == id && edge.kind@ != "contains"@ {
            before.push(reference_value(edge))
        } else {
            before
        }
    }
}

/// Optional text as a value.
pub open spec fn optional_value(t: Option<Seq<char>>) -> JsonView {
    match t {
        Some(found) => JsonView::Text(found),
        None => JsonView::Null,
    }
}

/// The lines a deletion would take.
pub open spec fn deletion_value(node: Node) -> JsonView {
    let file = optional_value(evidence::file_of(node));
    match node.span {
        Some(span) => JsonView::empty().with("file"@, file).with_number(
            "startLine"@,
            (span.start_line + 1) as nat,
        ).with_number("endLine"@, (span.end_line + 1) as nat),
        None => JsonView::empty().with("file"@, file).with("startLine"@, JsonView::Null).with(
            "endLine"@,
            JsonView::Null,
        ).with_text("note"@, "no source range recorded; locate the declaration manually"@),
    }
}

/// Whether a deletion is safe, as far as anything is known of it.
pub open spec fn safe_value(known: Seq<JsonView>) -> JsonView {
    if known.len() == 0 {
        JsonView::Text("UNPROVEN"@)
    } else {
        JsonView::Bool(false)
    }
}

/// How sure the verdict is.
pub open spec fn confidence(known: Seq<JsonView>, blocking: Seq<Seq<char>>) -> Seq<char> {
    if known.len() > 0 {
        "high"@
    } else if blocking.len() == 0 {
        "medium"@
    } else {
        "low"@
    }
}

/// What the verdict rests on.
pub open spec fn reason(known: Seq<JsonView>, blocking: Seq<Seq<char>>) -> Seq<char> {
    if known.len() > 0 {
        words::decimal(known.len())
            + " known reference(s) target this symbol; deleting it would break them"@
    } else if blocking.len() == 0 {
        "no known references, but no complete exact zero-reference proof exists; static absence alone is never proof of deletion safety"@
    } else {
        "absence of references is not proven safe: "@ + words::joined(blocking, ", "@)
    }
}

/// The verdict on a symbol, given the source of its declaring file where it could be read.
pub open spec fn verdict(node: Node, edges: Seq<Edge>, source: Option<Seq<char>>) -> JsonView {
    let known = references(edges, node.id@);
    let signals = evidence::signals(node, source);
    let blocking = evidence::blocking_names(signals);
    JsonView::empty().with_text("status"@, "OK"@).with_text("symbol"@, node.label@).with(
        "file"@,
        optional_value(evidence::file_of(node)),
    ).with("safe"@, safe_value(known)).with_text(
        "confidence"@,
        confidence(known, blocking),
    ).with_text("reason"@, reason(known, blocking)).with_list("knownReferences"@, known).with_list(
        "unknownDynamicUsages"@,
        evidence::reported(signals),
    ).with("deletion"@, deletion_value(node)).with_text("verdict"@, "REVIEW_REQUIRED"@)
}

/// The source of the file that declares a node, where it could be read.
pub open spec fn declaring_source(repository: Repository, node: Node) -> Option<Seq<char>> {
    match evidence::file_of(node) {
        Some(file) => evidence::source_of(repository.sources@, file),
        None => None,
    }
}

/// The answer to `delete_readiness`.
#[verifier::opaque]
pub open spec fn delete_readiness_answer(repository: Repository, arguments: JsonView) -> JsonView {
    let nodes = repository.graph.nodes@;
    match arguments.text("symbol"@) {
        None => operations::invalid_args_value("delete_readiness"@, seq!["symbol"@]),
        Some(symbol) => match resolve::resolved(nodes, symbol) {
            None => absent(symbol),
            Some(at) => verdict(
                nodes[at],
                repository.graph.edges@,
                declaring_source(repository, nodes[at]),
            ),
        },
    }
}

/// The references to a symbol, as many as are listed.
fn find_references(edges: &Vec<Edge>, id: &str) -> (items: Items)
    ensures
        items@ == references(edges@, id@),
{
    let mut items = Items::new();
    let mut i: usize = 0;
    while i < edges.len()
        invariant
            i <= edges@.len(),
            items@ == references(edges@.take(i as int), id@),
        decreases edges@.len() - i,
    {
        proof {
            assert(edges@.take(i + 1).drop_last() =~= edges@.take(i as int));
            assert(edges@.take(i + 1).last() == edges@[i as int]);
        }
        let edge = &edges[i];
        if items.len() < MAX_REFERENCES && text::same(edge.target.as_str(), id) && !text::same(
            edge.kind.as_str(),
            "contains",
        ) {
            items.push(
                Fields::new().with_text("relation", edge.kind.as_str()).with_text(
                    "provenance",
                    edge.evidence.as_str(),
                ).done(),
            );
        }
        i += 1;
    }
    assert(edges@.take(i as int) =~= edges@);
    items
}

/// Optional text as a value.
fn optional_text(t: Option<&str>) -> (value: Json)
    ensures
        value@ == optional_value(match t {
            Some(found) => Some(found@),
            None => None,
        }),
{
    match t {
        Some(found) => json::string(found),
        None => Json::Null,
    }
}

/// The lines a deletion would take.
fn deletion_span(node: &Node) -> (value: Json)
    ensures
        value@ == deletion_value(*node),
{
    let file = optional_text(evidence::declaring_file(node));
    match &node.span {
        Some(span) => Fields::new().with("file", file).with_number(
            "startLine",
            span.start_line as u64 + 1,
        ).with_number("endLine", span.end_line as u64 + 1).done(),
        None => Fields::new().with("file", file).with("startLine", Json::Null).with(
            "endLine",
            Json::Null,
        ).with_text("note", "no source range recorded; locate the declaration manually").done(),
    }
}

/// The verdict on a symbol.
fn assess(repository: &Repository, node: &Node) -> (value: Json)
    ensures
        value@ == verdict(*node, repository.graph.edges@, declaring_source(*repository, *node)),
{
    let source = match evidence::declaring_file(node) {
        Some(file) => evidence::read_source(&repository.sources, file),
        None => None,
    };
    let known = find_references(&repository.graph.edges, node.id.as_str());
    let signals = Risk::assess(node, source);
    let blocking = signals.blocking();
    let count: usize = known.len();
    let safe = if count == 0 {
        json::string("UNPROVEN")
    } else {
        Json::Bool(false)
    };
    let confidence = if count > 0 {
        "high"
    } else if blocking.len() == 0 {
        "medium"
    } else {
        "low"
    };
    let reason = if count > 0 {
        words::number(count as u64).concat(
            " known reference(s) target this symbol; deleting it would break them",
        )
    } else if blocking.len() == 0 {
        "no known references, but no complete exact zero-reference proof exists; static absence alone is never proof of deletion safety".to_owned()
    } else {
        "absence of references is not proven safe: ".to_owned().concat(
            words::join(&blocking, ", ").as_str(),
        )
    };
    Fields::new().with_text("status", "OK").with_text("symbol", node.label.as_str()).with(
        "file",
        optional_text(evidence::declaring_file(node)),
    ).with("safe", safe).with_text("confidence", confidence).with_text(
        "reason",
        reason.as_str(),
    ).with_list("knownReferences", known).with("unknownDynamicUsages", signals.report()).with(
        "deletion",
        deletion_span(node),
    ).with_text("verdict", "REVIEW_REQUIRED").done()
}

/// `delete_readiness`: tells whether anything still depends on a symbol.
pub fn delete_readiness(repository: &Repository, arguments: &Json) -> (value: Json)
    ensures
        value@ == delete_readiness_answer(*repository, arguments@),
{
    proof {
        reveal(delete_readiness_answer);
    }
    let symbol = match arguments.text("symbol") {
        Some(symbol) => symbol,
        None => {
            return operations::missing_one("delete_readiness", "symbol");
        },
    };
    match resolve::resolve_symbol(&repository.graph, symbol) {
        Some(at) => assess(repository, &repository.graph.nodes[at]),
        None => Fields::new().with_text("status", "NOT_FOUND").with_text(
            "reason",
            "the selected symbol is not present in the active graph",
        ).with_text("symbol", symbol).done(),
    }
}

/// A deletion is never called safe: the answer is `false` where references are known, and
/// `UNPROVEN` with less than high confidence where none are, whatever was found.
pub proof fn law_no_deletion_is_called_safe(
    node: Node,
    edges: Seq<Edge>,
    source: Option<Seq<char>>,
)
    ensures
        verdict(node, edges, source).get("safe"@) == Some(
            safe_value(references(edges, node.id@)),
        ),
        safe_value(references(edges, node.id@)) != JsonView::Bool(true),
        references(edges, node.id@).len() > 0 ==> safe_value(references(edges, node.id@))
            == JsonView::Bool(false),
        references(edges, node.id@).len() == 0 ==> confidence(
            references(edges, node.id@),
            evidence::blocking_names(evidence::signals(node, source)),
        ) == "low"@,
        verdict(node, edges, source).get("verdict"@) == Some(JsonView::Text("REVIEW_REQUIRED"@)),
        references(edges, node.id@).len() <= MAX_REFERENCES,
{
    broadcast use json::lemma_with_get;

    reveal_strlit("status");
    reveal_strlit("symbol");
    reveal_strlit("file");
    reveal_strlit("safe");
    reveal_strlit("confidence");
    reveal_strlit("reason");
    reveal_strlit("knownReferences");
    reveal_strlit("unknownDynamicUsages");
    reveal_strlit("deletion");
    reveal_strlit("verdict");
    assert("safe"@.len() == 4 && "file"@.len() == 4 && "safe"@[0] == 's' && "file"@[0] == 'f');
    assert("status"@.len() == 6 && "symbol"@.len() == 6 && "confidence"@.len() == 10
        && "reason"@.len() == 6 && "knownReferences"@.len() == 15 && "unknownDynamicUsages"@.len()
        == 20 && "deletion"@.len() == 8 && "verdict"@.len() == 7);
    evidence::law_exact_references_always_block(node, source);
    lemma_references_bound(edges, node.id@);
}

/// No more references are listed than the limit.
proof fn lemma_references_bound(edges: Seq<Edge>, id: Seq<char>)
    ensures
        references(edges, id).len() <= MAX_REFERENCES,
    decreases edges.len(),
{
    if edges.len() > 0 {
        lemma_references_bound(edges.drop_last(), id);
    }
}

/// Every answer of this operation keeps to the contract.
pub proof fn law_answers_conform(
    repository: Repository,
    arguments: JsonView,
)
    ensures
        contract::conforms(delete_readiness_answer(repository, arguments)),
{
    broadcast use json::lemma_with_get;

    reveal(delete_readiness_answer);
    contract::lemma_keys();
}

} // verus!
