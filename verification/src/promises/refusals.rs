//! What an operation promises of a call it cannot do: that it says so.

use crate::graph::Repository;
use crate::json;
use crate::json::JsonView;
use crate::operations;
use crate::operations::apply::StepView;
use crate::operations::change_signature;
use crate::operations::delete_readiness;
use crate::operations::edit_symbol;
use crate::operations::move_symbol;
use crate::operations::rename_symbol;
use crate::resolve;
use crate::token::IssuedView;
use crate::words;
use vstd::prelude::*;
use vstd::string::*;

verus! {

/// Whether an answer says that a symbol was not found, and lists ids it could have meant.
pub open spec fn unknown_symbol(answer: JsonView, ids: Seq<Seq<char>>) -> bool {
    &&& answer.text("status"@) == Some("NOT_FOUND"@)
    &&& answer.list("candidates"@) matches Some(listed) && listed.len() == ids.len() && forall|
        i: int,
    |
        0 <= i < ids.len() ==> listed[i] == JsonView::Text(#[trigger] ids[i])
}

/// The fields of a refusal are apart.
proof fn lemma_fields_apart()
    ensures
        "status"@ != "reason"@ && "status"@ != "symbol"@ && "status"@ != "candidates"@ && "status"@
            != "operation"@ && "status"@ != "invalid"@,
        "reason"@ != "candidates"@ && "symbol"@ != "candidates"@,
{
    reveal_strlit("status");
    reveal_strlit("reason");
    reveal_strlit("symbol");
    reveal_strlit("candidates");
    reveal_strlit("operation");
    reveal_strlit("invalid");
    assert("status"@[0] == 's' && "reason"@[0] == 'r' && "symbol"@[1] == 'y' && "status"@[1] == 't');
    assert("status"@.len() == 6 && "candidates"@.len() == 10 && "operation"@.len() == 9
        && "invalid"@.len() == 7 && "reason"@.len() == 6 && "symbol"@.len() == 6);
}

/// A refusal that names no symbol says so and lists the candidates.
proof fn lemma_unknown(repository: Repository, symbol: Seq<char>)
    ensures
        unknown_symbol(
            operations::not_found_value(repository.graph.nodes@, symbol),
            resolve::candidates(repository.graph.nodes@, symbol),
        ),
{
    broadcast use json::lemma_with_get;

    lemma_fields_apart();
    let ids = resolve::candidates(repository.graph.nodes@, symbol);
    let answer = operations::not_found_value(repository.graph.nodes@, symbol);
    assert(answer.list("candidates"@) == Some(operations::texts(ids)));
    assert(answer.text("status"@) == Some("NOT_FOUND"@));
}

/// A symbol that leads to no one node is answered with the ids it could have meant, whatever is
/// asked of it: a rename, a change of its signature, an edit, or a move.
pub proof fn law_an_unknown_symbol_is_answered_with_candidates(
    issued: Map<Seq<char>, IssuedView>,
    repository: Repository,
    arguments: JsonView,
    write_allowed: bool,
    now: u64,
    symbol: Seq<char>,
)
    requires
        arguments.text("symbol"@) == Some(symbol),
        resolve::resolved(repository.graph.nodes@, symbol) is None,
    ensures
        ({
            let ids = resolve::candidates(repository.graph.nodes@, symbol);
            &&& (arguments.text("new_name"@) matches Some(name) && words::identifier(name)) ==> (
            rename_symbol::rename_symbol_step(
                issued,
                repository,
                arguments,
                write_allowed,
                now,
            ).0 matches StepView::Answer(answer) && unknown_symbol(answer, ids))
            &&& change_signature::change_of(arguments) is Ok ==> unknown_symbol(
                change_signature::change_signature_answer(repository, arguments),
                ids,
            )
            &&& ((arguments.text("operation"@) == Some("replace_symbol_body"@) || arguments.text(
                "operation"@,
            ) == Some("insert_before_symbol"@) || arguments.text("operation"@) == Some(
                "insert_after_symbol"@,
            )) && arguments.text("content"@) is Some) ==> unknown_symbol(
                edit_symbol::edit_symbol_answer(repository, arguments),
                ids,
            )
            &&& arguments.text("to_file"@) is Some ==> unknown_symbol(
                move_symbol::move_symbol_answer(repository, arguments),
                ids,
            )
            &&& delete_readiness::delete_readiness_answer(repository, arguments).text("status"@)
                == Some("NOT_FOUND"@)
        }),
{
    broadcast use json::lemma_with_get;

    reveal(rename_symbol::rename_symbol_step);
    reveal(change_signature::change_signature_answer);
    reveal(edit_symbol::edit_symbol_answer);
    reveal(move_symbol::move_symbol_answer);
    reveal(delete_readiness::delete_readiness_answer);
    lemma_fields_apart();
    lemma_unknown(repository, symbol);
}

/// A rename that would come to nothing, or to no identifier, is refused: with what is wrong with
/// the new name where it is no identifier, and with no change where the symbol has that name
/// already.
pub proof fn law_a_rename_to_nothing_new_is_refused(
    issued: Map<Seq<char>, IssuedView>,
    repository: Repository,
    arguments: JsonView,
    write_allowed: bool,
    now: u64,
    symbol: Seq<char>,
    new_name: Seq<char>,
)
    requires
        arguments.text("symbol"@) == Some(symbol),
        arguments.text("new_name"@) == Some(new_name),
    ensures
        ({
            let step = rename_symbol::rename_symbol_step(
                issued,
                repository,
                arguments,
                write_allowed,
                now,
            ).0;
            let valid = new_name.len() > 0 && (words::alphabetic(new_name[0]) || new_name[0] == '_')
                && forall|i: int|
                0 <= i < new_name.len() ==> words::alphanumeric(#[trigger] new_name[i])
                    || new_name[i] == '_';
            &&& !valid ==> (step matches StepView::Answer(answer) && answer.text("status"@) == Some(
                "INVALID_NEW_NAME"@,
            ))
            &&& (valid && (resolve::resolved(repository.graph.nodes@, symbol) matches Some(at)
                && words::plain_name(repository.graph.nodes@[at].label@) == new_name)) ==> (
            step matches StepView::Answer(answer) && answer.text("status"@) == Some("NO_CHANGE"@))
        }),
{
    broadcast use json::lemma_with_get;

    reveal(rename_symbol::rename_symbol_step);
    lemma_fields_apart();
    assert(words::identifier(new_name) == (new_name.len() > 0 && (words::alphabetic(new_name[0])
        || new_name[0] == '_') && forall|i: int|
        0 <= i < new_name.len() ==> words::alphanumeric(#[trigger] new_name[i]) || new_name[i]
            == '_')) by {
        if words::identifier(new_name) {
            assert forall|i: int| 0 <= i < new_name.len() implies words::alphanumeric(
                #[trigger] new_name[i],
            ) || new_name[i] == '_' by {
                assert(words::word(new_name[i]));
            }
        }
    }
}

} // verus!
