//! The contract: the tools, their schemas, and the states.

use weavatrix_rust_refactor::contract::{catalog_value, declares, permits_state, tools, Contract};
use weavatrix_rust_refactor::json::Json;
use weavatrix_rust_refactor::{CONTRACT_VERSION, VERSION};

fn text(value: &str) -> Json {
    Json::Text(value.to_owned())
}

fn object(entries: Vec<(&str, Json)>) -> Json {
    Json::Object(
        entries
            .into_iter()
            .map(|(key, value)| (key.to_owned(), value))
            .collect(),
    )
}

#[test]
fn the_contract_freezes_eleven_tools() {
    assert_eq!(tools().len(), 11);
    for name in [
        "rename_symbol",
        "rename_related_symbols",
        "apply_edit_plan",
        "rollback_last_apply",
        "change_signature",
        "edit_symbol",
        "bulk_replace",
        "organize_imports",
        "move_file",
        "move_symbol",
        "delete_readiness",
    ] {
        assert!(declares(name), "{name} is missing from the contract");
    }
}

#[test]
fn every_tool_carries_a_description_and_a_schema() {
    for tool in tools() {
        assert!(
            !tool.description.is_empty(),
            "{} has no description",
            tool.name
        );
        assert!(
            tool.input_schema.get("type").is_some(),
            "{} has no input schema",
            tool.name
        );
    }
}

#[test]
fn load_bearing_states_are_permitted_and_invented_ones_are_not() {
    for state in [
        "PREVIEW_OK",
        "APPLIED",
        "STALE",
        "REPO_BUSY",
        "ROLLBACK_INCOMPLETE",
        "INVALID_ARGS",
        "PARTIAL",
        "COMPLETE",
        "EXACT_LSP",
    ] {
        assert!(permits_state(state), "{state} must be a contract state");
    }
    assert!(!permits_state("MOSTLY_FINE"));
    assert!(!permits_state("OK_PROBABLY"));
}

#[test]
fn the_catalog_is_the_contract_itself() {
    let value = catalog_value();
    let catalog = value.as_array().expect("catalog is an array");
    assert_eq!(catalog.len(), tools().len());
}

#[test]
fn an_undeclared_name_is_not_a_tool() {
    assert!(!declares("reformat_universe"));
    assert!(!declares(""));
}

#[test]
fn the_versions_are_stated() {
    assert_eq!(CONTRACT_VERSION, 1);
    assert_eq!(VERSION, "0.1.0");
}

#[test]
fn a_recorded_contract_reads_its_tools_and_states() {
    let document = object(vec![
        (
            "tools",
            Json::List(vec![object(vec![
                ("name", text("rename_symbol")),
                ("description", text("renames")),
                ("inputSchema", object(vec![("type", text("object"))])),
            ])]),
        ),
        (
            "resultStates",
            object(vec![
                ("status", Json::List(vec![text("PLANNED"), text("NOT_FOUND")])),
                ("completeness", Json::List(vec![text("PARTIAL")])),
            ]),
        ),
    ]);
    if let Some(contract) = Contract::read(&document) {
        assert_eq!(contract.tools.len(), 1);
        assert!(contract.declares("rename_symbol"));
        assert!(!contract.declares("move_file"));
        assert!(contract.permits_state("PLANNED"));
        assert!(contract.permits_state("PARTIAL"));
        assert!(!contract.permits_state("MOSTLY_FINE"));
    } else {
        panic!("the document records a contract");
    }
}

#[test]
fn a_tool_without_a_schema_is_no_contract() {
    let document = object(vec![
        (
            "tools",
            Json::List(vec![object(vec![("name", text("rename_symbol"))])]),
        ),
        ("resultStates", object(vec![("status", Json::List(vec![text("PLANNED")]))])),
    ]);
    assert!(Contract::read(&document).is_none());
}
