//! Removing named imports that provably nothing uses.
//!
//! The rule is deliberately narrow: a named binding goes only when its identifier occurs exactly
//! once in the whole file, in the import itself. Anything that reads like a use keeps it, even a
//! property access or an object shorthand that merely shares the name. Being wrong in that
//! direction leaves a tidy-up undone; being wrong in the other direction deletes a binding the
//! program needs, and the file no longer compiles.
//!
//! Default and namespace imports are never removed. A default import can be used by a transform
//! rather than by name (the classic case is `React` under JSX), so counting its occurrences
//! proves nothing. They are reported instead.
//!
//! Other languages get the same analysis and no edits. In Rust `use std::io::Write` is used by
//! calling `write_all`, never by naming `Write`; in Python an import in `__init__.py` is often
//! the public API. Both would pass an occurrence count and both would break on removal, so the
//! answer there is the candidate list and `UNPROVEN`, not a plan.

use crate::envelope;
use crate::contract;
use crate::coordinates;
use crate::evidence;
use crate::fit;
use crate::graph::{Repository, SourceFile};
use crate::json;
use crate::json::{Fields, Items, Json, JsonView};
use crate::operations;
use crate::operations::edit_symbol;
use crate::operations::occurrences;
use crate::operations::signature;
use crate::parse;
use crate::parse::{Token, TokenKind};
use crate::plan;
use crate::plan::{BuilderView, EditView, PlanBuilder, PlanView};
use crate::text;
use crate::words;
use vstd::prelude::*;
use vstd::string::*;

verus! {

/// Files past this are not analysed; the answer would be slow and nobody hand-edits them.
pub const MAX_BYTES: usize = 2_097_152;

/// One named binding inside `{ ... }`, and the exact bytes it occupies.
pub struct Binding {
    /// The name this file would refer to it by: `z` in `y as z`.
    pub local: String,
    pub start: usize,
    pub end: usize,
}

/// One `import` statement, located but not yet judged.
pub struct Statement {
    /// The whole statement, `import` through the terminating `;`.
    pub start: usize,
    pub end: usize,
    pub named: Vec<Binding>,
    /// Byte range of the `{ ... }` group, when the statement has one.
    pub braces: Option<(usize, usize)>,
    /// Default and namespace bindings, which are reported and never removed.
    pub unnamed: Vec<String>,
}

/// One named binding as a mathematical value.
#[verifier::ext_equal]
pub struct BindingView {
    pub local: Seq<char>,
    pub start: usize,
    pub end: usize,
}

/// One `import` statement as a mathematical value.
#[verifier::ext_equal]
pub struct StatementView {
    pub start: usize,
    pub end: usize,
    pub named: Seq<BindingView>,
    pub braces: Option<(usize, usize)>,
    pub unnamed: Seq<Seq<char>>,
}

impl Binding {
    /// The binding without its representation.
    pub open spec fn view(self) -> BindingView {
        BindingView { local: self.local@, start: self.start, end: self.end }
    }
}

/// Bindings without their representation.
pub open spec fn bindings_view(named: Seq<Binding>) -> Seq<BindingView> {
    Seq::new(named.len(), |i: int| named[i].view())
}

impl Statement {
    /// The statement without its representation.
    pub open spec fn view(self) -> StatementView {
        StatementView {
            start: self.start,
            end: self.end,
            named: bindings_view(self.named@),
            braces: self.braces,
            unnamed: text::string_views(self.unnamed@),
        }
    }
}

/// Statements without their representation.
pub open spec fn statements_view(statements: Seq<Statement>) -> Seq<StatementView> {
    Seq::new(statements.len(), |i: int| statements[i].view())
}

/// The token that names a binding, past a `type` marker where one stands before it.
pub open spec fn name_at(source: Seq<char>, code: Seq<Token>, at: int) -> int {
    if parse::token_text(source, code[at]) == "type"@ && at + 1 < code.len() && code[at + 1].kind is Identifier {
        at + 1
    } else {
        at
    }
}

/// Whether an alias follows: `as` and the name the file refers to the binding by.
pub open spec fn alias_at(source: Seq<char>, code: Seq<Token>, at: int) -> bool {
    at + 1 < code.len() && parse::token_text(source, code[at]) == "as"@ && code[at + 1].kind is Identifier
}

/// The bindings of a `{ ... }` group from a token on, after those already read, and the token
/// after the closing `}`.
pub open spec fn group_from(
    source: Seq<char>,
    code: Seq<Token>,
    at: int,
    read: Seq<BindingView>,
) -> (Seq<BindingView>, int)
    decreases code.len() - at,
{
    if at < 0 || at >= code.len() {
        (read, at)
    } else {
        let t = parse::token_text(source, code[at]);
        if t == "}"@ {
            (read, at + 1)
        } else if t == ","@ || !(code[at].kind is Identifier) {
            group_from(source, code, at + 1, read)
        } else {
            let name = name_at(source, code, at);
            if alias_at(source, code, name + 1) {
                group_from(
                    source,
                    code,
                    name + 3,
                    read.push(
                        BindingView {
                            local: parse::token_text(source, code[name + 2]),
                            start: code[at].start,
                            end: code[name + 2].end,
                        },
                    ),
                )
            } else {
                group_from(
                    source,
                    code,
                    name + 1,
                    read.push(
                        BindingView {
                            local: parse::token_text(source, code[name]),
                            start: code[at].start,
                            end: code[name].end,
                        },
                    ),
                )
            }
        }
    }
}

/// The bindings of a statement from a token on, and the token its bindings end at: the one that
/// starts the module specifier, or a `;`.
pub open spec fn bindings_from(
    source: Seq<char>,
    code: Seq<Token>,
    at: int,
    statement: StatementView,
) -> (StatementView, int)
    decreases code.len() - at,
{
    if at < 0 || at >= code.len() {
        (statement, at)
    } else {
        let token = code[at];
        let t = parse::token_text(source, token);
        if t == "{"@ {
            let (named, after) = group_from(source, code, at + 1, Seq::empty());
            if after <= at || after > code.len() {
                (statement, at)
            } else {
                bindings_from(
                    source,
                    code,
                    after,
                    StatementView {
                        named,
                        braces: Some((token.start, code[after - 1].end)),
                        ..statement
                    },
                )
            }
        } else if t == "from"@ || t == ";"@ {
            (statement, at)
        } else {
            let named = if token.kind is Identifier && t != "type"@ && t != "as"@ {
                statement.unnamed.push(t)
            } else {
                statement.unnamed
            };
            let unnamed = if t == "*"@ {
                named.push("*"@)
            } else {
                named
            };
            bindings_from(source, code, at + 1, StatementView { unnamed, ..statement })
        }
    }
}

/// Where a statement ends from a token on, and the token after it: at its `;`, or at the module
/// specifier when there is none.
pub open spec fn tail_from(source: Seq<char>, code: Seq<Token>, at: int, end: usize) -> (usize, int)
    decreases code.len() - at,
{
    if at < 0 || at >= code.len() {
        (end, at)
    } else if parse::token_text(source, code[at]) == ";"@ {
        (code[at].end, at + 1)
    } else if at + 1 < code.len() && (parse::token_text(source, code[at + 1]) == "import"@
        || code[at + 1].line > code[at].line) {
        (code[at].end, at + 1)
    } else {
        tail_from(source, code, at + 1, code[at].end)
    }
}

/// Whether a static `import` statement starts at a token: `import(...)` and `import.meta` are
/// expressions, and have no bindings to remove.
pub open spec fn starts_import(source: Seq<char>, code: Seq<Token>, at: int) -> bool {
    &&& code[at].kind is Identifier
    &&& parse::token_text(source, code[at]) == "import"@
    &&& at + 1 < code.len() ==> parse::token_text(source, code[at + 1]) != "("@
        && parse::token_text(source, code[at + 1]) != "."@
}

/// The static `import` statements from a token on, after those already found.
pub open spec fn imports_from(
    source: Seq<char>,
    code: Seq<Token>,
    at: int,
    found: Seq<StatementView>,
) -> Seq<StatementView>
    decreases code.len() - at,
{
    if at < 0 || at >= code.len() {
        found
    } else if !starts_import(source, code, at) {
        imports_from(source, code, at + 1, found)
    } else {
        let opened = StatementView {
            start: code[at].start,
            end: code[at].end,
            named: Seq::empty(),
            braces: None,
            unnamed: Seq::empty(),
        };
        let (bound, middle) = bindings_from(source, code, at + 1, opened);
        let (end, after) = tail_from(source, code, middle, bound.end);
        if after <= at || after > code.len() {
            found
        } else {
            imports_from(source, code, after, found.push(StatementView { end, ..bound }))
        }
    }
}

/// The static `import` statements of a source.
pub open spec fn imports_of(source: Seq<char>, tokens: Seq<Token>) -> Seq<StatementView> {
    imports_from(source, signature::code_of(tokens), 0, Seq::empty())
}

/// What a file mentions: its identifiers, each as often as it stands there, and the code inside
/// its templates.
pub struct MentionsView {
    pub identifiers: Seq<Seq<char>>,
    pub interpolations: Seq<Seq<char>>,
}

/// The identifiers among the first tokens, those of the import statements with the others.
pub open spec fn identifiers(source: Seq<char>, tokens: Seq<Token>) -> Seq<Seq<char>>
    decreases tokens.len(),
{
    if tokens.len() == 0 {
        Seq::empty()
    } else {
        let before = identifiers(source, tokens.drop_last());
        if tokens.last().kind is Identifier {
            before.push(parse::token_text(source, tokens.last()))
        } else {
            before
        }
    }
}

/// The texts of the first sections of a text.
pub open spec fn section_texts(t: Seq<char>, sections: Seq<(int, int)>) -> Seq<Seq<char>>
    decreases sections.len(),
{
    if sections.len() == 0 {
        Seq::empty()
    } else {
        let before = section_texts(t, sections.drop_last());
        let (from, to) = sections.last();
        if text::sliceable(t, from, to) {
            before.push(text::slice(t, from, to))
        } else {
            before
        }
    }
}

/// The code inside the templates among the first tokens.
pub open spec fn interpolations(source: Seq<char>, tokens: Seq<Token>) -> Seq<Seq<char>>
    decreases tokens.len(),
{
    if tokens.len() == 0 {
        Seq::empty()
    } else {
        let before = interpolations(source, tokens.drop_last());
        let token = tokens.last();
        let t = parse::token_text(source, token);
        if token.kind is Interpolation || (token.kind is String && text::begins(t, "`"@)) {
            before + section_texts(
                t,
                occurrences::template_sections_from(text::bytes(t), 0, Seq::empty()),
            )
        } else {
            before
        }
    }
}

/// What a file mentions.
pub open spec fn mentions(source: Seq<char>, tokens: Seq<Token>) -> MentionsView {
    MentionsView {
        identifiers: identifiers(source, tokens),
        interpolations: interpolations(source, tokens),
    }
}

/// How often a name is among the first of some.
pub open spec fn times(names: Seq<Seq<char>>, name: Seq<char>) -> nat
    decreases names.len(),
{
    if names.len() == 0 {
        0
    } else {
        times(names.drop_last(), name) + if names.last() == name {
            1nat
        } else {
            0
        }
    }
}

/// Whether a name stands as a word in the code of a template.
pub open spec fn interpolated(codes: Seq<Seq<char>>, name: Seq<char>) -> bool {
    exists|i: int|
        0 <= i < codes.len() && occurrences::words_from(
            #[trigger] codes[i],
            name,
            0,
            Seq::empty(),
        ).len() > 0
}

/// Whether a name that is bound in a file is mentioned nowhere else in it: its identifier occurs
/// once in the whole file, in the import itself.
pub open spec fn occurs_once(mentioned: MentionsView, name: Seq<char>) -> bool {
    times(mentioned.identifiers, name) <= 1 && !interpolated(mentioned.interpolations, name)
}

/// The deletion of a byte range, where both ends can be expressed exactly.
pub open spec fn deletion(source: Seq<char>, from: int, to: int) -> Option<EditView> {
    match (edit_symbol::plan_position(source, from), edit_symbol::plan_position(source, to)) {
        (Some(start), Some(end)) => if text::sliceable(source, from, to) {
            Some(
                EditView {
                    start_line: start.0,
                    start_char: start.1,
                    end_line: end.0,
                    end_char: end.1,
                    before: text::slice(source, from, to),
                    after: Seq::empty(),
                    provenance: "LEXICAL_EXACT"@,
                },
            )
        } else {
            None
        },
        _ => None,
    }
}

/// A plan with one deletion more, or none where its position cannot be expressed exactly.
pub open spec fn deleted(builder: BuilderView, source: Seq<char>, range: (int, int)) -> BuilderView {
    match deletion(source, range.0, range.1) {
        Some(edit) => builder.edit(edit),
        None => builder,
    }
}

/// The last of the consecutive unused bindings from one on.
pub open spec fn run_end(unused: Seq<bool>, at: int) -> int
    decreases unused.len() - at,
{
    if 0 <= at && at + 1 < unused.len() && unused[at + 1] {
        run_end(unused, at + 1)
    } else {
        at
    }
}

/// The bytes to delete for the runs of unused bindings from one on, after those already found.
///
/// A run is taken whole rather than one binding at a time, because the separating comma belongs
/// to whichever neighbour survives: two per-binding ranges that each claimed a comma would
/// overlap, which the applier rejects.
pub open spec fn runs_from(
    named: Seq<BindingView>,
    unused: Seq<bool>,
    at: int,
    found: Seq<(int, int)>,
) -> Seq<(int, int)>
    decreases named.len() - at,
{
    if at < 0 || at >= named.len() {
        found
    } else if !unused[at] {
        runs_from(named, unused, at + 1, found)
    } else {
        let last = run_end(unused, at);
        if last < at || last >= named.len() {
            found
        } else if last + 1 < named.len() {
            runs_from(
                named,
                unused,
                last + 1,
                found.push((named[at].start as int, named[last + 1].start as int)),
            )
        } else if at > 0 {
            runs_from(
                named,
                unused,
                last + 1,
                found.push((named[at - 1].end as int, named[last].end as int)),
            )
        } else {
            runs_from(named, unused, last + 1, found)
        }
    }
}

/// The start of the line that an offset is on, where only white space stands between them.
pub open spec fn clear_before(source: Seq<char>, start: int) -> Option<int> {
    if 0 <= start <= text::bytes(source).len() {
        let begin = coordinates::line_begin(text::bytes(source).subrange(0, start)) as int;
        if text::sliceable(source, begin, start) && words::blank(
            text::slice(source, begin, start),
        ) {
            Some(begin)
        } else {
            None
        }
    } else {
        None
    }
}

/// The end of the line that an offset is on, past its newline, where only white space stands
/// between them. On a last line without a newline it is the offset itself.
pub open spec fn clear_behind(source: Seq<char>, end: int) -> Option<int> {
    match text::find_from(source, "\n"@, end) {
        Some(newline) => if text::sliceable(source, end, newline) && words::blank(
            text::slice(source, end, newline),
        ) {
            Some(newline + 1)
        } else {
            None
        },
        None => {
            let last = text::bytes(source).len() as int;
            if text::sliceable(source, end, last) && words::blank(text::slice(source, end, last)) {
                Some(end)
            } else {
                None
            }
        },
    }
}

/// The bytes that go with a statement: its own lines whole when nothing else shares them, and the
/// statement alone when something does.
pub open spec fn own_lines(source: Seq<char>, start: int, end: int) -> (int, int) {
    match (clear_before(source, start), clear_behind(source, end)) {
        (Some(from), Some(to)) => (from, to),
        _ => (start, end),
    }
}

/// The place of the last comma among bytes, where there is one.
pub open spec fn last_comma(b: Seq<u8>) -> Option<int>
    decreases b.len(),
{
    if b.len() == 0 {
        None
    } else if b.last() == 44 {
        Some(b.len() - 1)
    } else {
        last_comma(b.drop_last())
    }
}

/// Where the deletion of a braces group starts: at the comma before it in the same statement.
pub open spec fn comma_before(source: Seq<char>, start: int, open: int) -> int {
    if 0 <= start <= open <= text::bytes(source).len() {
        match last_comma(text::bytes(source).subrange(start, open)) {
            Some(at) => start + at,
            None => open,
        }
    } else {
        open
    }
}

/// Which bindings of a statement nothing uses.
pub open spec fn unused_flags(named: Seq<BindingView>, mentioned: MentionsView) -> Seq<bool> {
    Seq::new(named.len(), |i: int| occurs_once(mentioned, named[i].local))
}

/// Whether every flag is set.
pub open spec fn all_set(flags: Seq<bool>) -> bool {
    forall|i: int| 0 <= i < flags.len() ==> #[trigger] flags[i]
}

/// A plan with the deletions of the first ranges.
pub open spec fn all_deleted(
    builder: BuilderView,
    source: Seq<char>,
    ranges: Seq<(int, int)>,
) -> BuilderView
    decreases ranges.len(),
{
    if ranges.len() == 0 {
        builder
    } else {
        deleted(all_deleted(builder, source, ranges.drop_last()), source, ranges.last())
    }
}

/// The names of the first bindings whose flag is set.
pub open spec fn flagged(named: Seq<BindingView>, flags: Seq<bool>) -> Seq<Seq<char>>
    decreases named.len(),
{
    if named.len() == 0 || flags.len() != named.len() {
        Seq::empty()
    } else {
        let before = flagged(named.drop_last(), flags.drop_last());
        if flags.last() {
            before.push(named.last().local)
        } else {
            before
        }
    }
}

/// A plan and the names it removes, after one statement was judged.
///
/// Where nothing named survives, the statement goes when no default stands beside it; with one,
/// only the braces group does, and the comma before it belongs to the group.
pub open spec fn judged(
    builder: BuilderView,
    removed: Seq<Seq<char>>,
    source: Seq<char>,
    statement: StatementView,
    mentioned: MentionsView,
) -> (BuilderView, Seq<Seq<char>>) {
    let flags = unused_flags(statement.named, mentioned);
    let gone = flagged(statement.named, flags);
    if statement.named.len() > 0 && all_set(flags) {
        if statement.unnamed.len() == 0 {
            (
                deleted(
                    builder,
                    source,
                    own_lines(source, statement.start as int, statement.end as int),
                ),
                removed + gone,
            )
        } else {
            match statement.braces {
                Some((open, close)) => (
                    deleted(
                        builder,
                        source,
                        (
                            comma_before(source, statement.start as int, open as int),
                            close as int,
                        ),
                    ),
                    removed + gone,
                ),
                None => (builder, removed),
            }
        }
    } else {
        (
            all_deleted(builder, source, runs_from(statement.named, flags, 0, Seq::empty())),
            removed + gone,
        )
    }
}

/// A plan and the names it removes, after the first statements were judged.
pub open spec fn all_judged(
    builder: BuilderView,
    source: Seq<char>,
    statements: Seq<StatementView>,
    mentioned: MentionsView,
) -> (BuilderView, Seq<Seq<char>>)
    decreases statements.len(),
{
    if statements.len() == 0 {
        (builder, Seq::empty())
    } else {
        let (before, removed) = all_judged(builder, source, statements.drop_last(), mentioned);
        judged(before, removed, source, statements.last(), mentioned)
    }
}

/// The names of the bindings of the first statements.
pub open spec fn locals(statements: Seq<StatementView>) -> Seq<Seq<char>>
    decreases statements.len(),
{
    if statements.len() == 0 {
        Seq::empty()
    } else {
        let named = statements.last().named;
        locals(statements.drop_last()) + Seq::new(named.len(), |i: int| named[i].local)
    }
}

/// The default and namespace bindings of the first statements.
pub open spec fn defaults(statements: Seq<StatementView>) -> Seq<Seq<char>>
    decreases statements.len(),
{
    if statements.len() == 0 {
        Seq::empty()
    } else {
        defaults(statements.drop_last()) + statements.last().unnamed
    }
}

/// A default or namespace binding as it is reported.
pub open spec fn uncertain_value(name: Seq<char>) -> JsonView {
    JsonView::empty().with_text("binding"@, name).with_text("kind"@, "UNCERTAIN"@).with_text(
        "reason"@,
        "a default or namespace import can be used by a transform rather than by name, so its occurrences prove nothing"@,
    )
}

/// Default and namespace bindings as they are reported.
pub open spec fn uncertain_values(names: Seq<Seq<char>>) -> Seq<JsonView> {
    Seq::new(names.len(), |i: int| uncertain_value(names[i]))
}

/// The answer for a language where an occurrence count does not prove disuse.
pub open spec fn unproven_answer(
    path: Seq<char>,
    language: Seq<char>,
    candidates: Seq<Seq<char>>,
) -> JsonView {
    JsonView::empty().with_text("status"@, "UNPROVEN"@).with_text("file"@, path).with_text(
        "language"@,
        language,
    ).with_list("candidates"@, operations::texts(candidates)).with_text(
        "reason"@,
        "outside JavaScript and TypeScript an import can be used without its name appearing - a Rust trait through one of its methods, a Python re-export through the module's public API - so an occurrence count cannot prove a binding is unused and nothing was planned"@,
    )
}

/// Whether a language is one where an occurrence count proves disuse.
pub open spec fn counts_prove(language: Seq<char>) -> bool {
    language == "JavaScript"@ || language == "TypeScript"@
}

/// The answer for a file, given its tokens and the name of its language.
pub open spec fn tokens_answer(
    path: Seq<char>,
    source: Seq<char>,
    tokens: Seq<Token>,
    language: Seq<char>,
) -> JsonView {
    let statements = imports_of(source, tokens);
    let candidates = locals(statements);
    if !counts_prove(language) {
        unproven_answer(path, language, candidates)
    } else if statements.len() == 0 {
        JsonView::empty().with_text("status"@, "NO_UNUSED_IMPORTS"@).with_text(
            "file"@,
            path,
        ).with_text("reason"@, "the file declares no static imports"@)
    } else {
        let mentioned = mentions(source, tokens);
        let opened = BuilderView::start("organize_imports"@).file(path, plan::sha256_hex(source));
        let (builder, removed) = all_judged(opened, source, statements, mentioned);
        let reported = uncertain_values(defaults(statements));
        if removed.len() == 0 {
            JsonView::empty().with_text("status"@, "NO_UNUSED_IMPORTS"@).with_text(
                "file"@,
                path,
            ).with_number("checkedBindings"@, candidates.len()).with_list(
                "uncertain"@,
                reported,
            ).with_text("reason"@, "every named binding occurs somewhere else in the file"@)
        } else {
            JsonView::empty().with_text("status"@, "PLANNED"@).with_text(
                "completeness"@,
                "PARTIAL"@,
            ).with_text("file"@, path).with_list("removed"@, operations::texts(removed)).with_list(
                "uncertain"@,
                reported,
            ).with("plan"@, plan::plan_value(builder.plan())).with_list(
                "warnings"@,
                Seq::empty().push(JsonView::Text("OCCURRENCE_COUNTED_WITHIN_FILE"@)),
            ).with_text(
                "next"@,
                "apply with apply_edit_plan (preview -> confirm). Sorting is left to the formatter; only provably-unused named bindings were removed."@,
            )
        }
    }
}

/// The answer to `organize_imports`.
#[verifier::opaque]
pub open spec fn organize_imports_answer(repository: Repository, arguments: JsonView) -> JsonView {
    match arguments.text("file"@) {
        None => operations::invalid_args_value("organize_imports"@, seq!["file"@]),
        Some(path) => match evidence::source_of(repository.sources@, path) {
            None => operations::plain_answer(
                "SOURCE_UNAVAILABLE"@,
                path + " could not be read from the active repository"@,
            ),
            Some(source) => if text::bytes(source).len() > MAX_BYTES {
                operations::plain_answer(
                    "FILE_TOO_LARGE"@,
                    path + " is "@ + words::decimal(text::bytes(source).len())
                        + " bytes; the limit is 2097152"@,
                )
            } else {
                match parse::path_language(path) {
                    None => operations::plain_answer(
                        "UNPROVEN"@,
                        path + " has no recognised language, so its imports were not read"@,
                    ),
                    Some(language) => tokens_answer(
                        path,
                        source,
                        parse::tokens_of(source, language),
                        parse::name_of(language),
                    ),
                }
            },
        },
    }
}

/// Reads the bindings of one `{ ... }` group, starting just past the `{`.
///
/// Returns the bindings and the place of the token after the closing `}`.
fn read_group(source: &str, code: &Vec<Token>, from: usize) -> (group: (Vec<Binding>, usize))
    requires
        from <= code@.len(),
    ensures
        group_from(source@, code@, from as int, Seq::empty()) == (
            bindings_view(group.0@),
            group.1 as int,
        ),
        from <= group.1 <= code@.len(),
{
    let mut bindings: Vec<Binding> = Vec::new();
    let mut at: usize = from;
    assert(bindings_view(bindings@) =~= Seq::empty());
    while at < code.len()
        invariant
            from <= at <= code@.len(),
            group_from(source@, code@, from as int, Seq::empty()) == group_from(
                source@,
                code@,
                at as int,
                bindings_view(bindings@),
            ),
        decreases code@.len() - at,
    {
        let t = code[at].text(source);
        if text::same(t, "}") {
            return (bindings, at + 1);
        }
        if text::same(t, ",") || code[at].kind != TokenKind::Identifier {
            at += 1;
            continue ;
        }
        let start: usize = code[at].start;
        // `import { type Foo }` names Foo; the `type` marker is part of the binding's bytes.
        let mut name: usize = at;
        if text::same(t, "type") && code.len() - at > 1 && code[at + 1].kind
            == TokenKind::Identifier {
            name = at + 1;
        }
        assert(name == name_at(source@, code@, at as int));
        // `y as z` binds z; the file refers to the alias, so that is the name to count.
        if code.len() - name > 2 && code[name + 1].reads(source, "as") && code[name + 2].kind
            == TokenKind::Identifier {
            assert(alias_at(source@, code@, name + 1));
            let binding = Binding {
                local: code[name + 2].text(source).to_owned(),
                start,
                end: code[name + 2].end,
            };
            assert(bindings_view(bindings@.push(binding)) =~= bindings_view(bindings@).push(
                binding@,
            ));
            bindings.push(binding);
            at = name + 3;
        } else {
            assert(!alias_at(source@, code@, name + 1));
            let binding = Binding {
                local: code[name].text(source).to_owned(),
                start,
                end: code[name].end,
            };
            assert(bindings_view(bindings@.push(binding)) =~= bindings_view(bindings@).push(
                binding@,
            ));
            bindings.push(binding);
            at = name + 1;
        }
    }
    (bindings, at)
}

/// Reads the bindings of a statement whose `import` stands just before a token.
///
/// Returns the statement and the place of the token its bindings end at.
fn read_bindings(source: &str, code: &Vec<Token>, from: usize, opened: Statement) -> (found: (
    Statement,
    usize,
))
    requires
        from <= code@.len(),
    ensures
        bindings_from(source@, code@, from as int, opened@) == (found.0@, found.1 as int),
        from <= found.1 <= code@.len(),
{
    let mut statement = opened;
    let mut at: usize = from;
    while at < code.len()
        invariant
            from <= at <= code@.len(),
            bindings_from(source@, code@, from as int, opened@) == bindings_from(
                source@,
                code@,
                at as int,
                statement@,
            ),
        decreases code@.len() - at,
    {
        let token = code[at];
        let t = token.text(source);
        if text::same(t, "{") {
            let (named, after) = read_group(source, code, at + 1);
            let ghost before = statement@;
            statement = Statement {
                start: statement.start,
                end: statement.end,
                named,
                braces: Some((token.start, code[after - 1].end)),
                unnamed: statement.unnamed,
            };
            at = after;
            continue ;
        }
        if text::same(t, "from") || text::same(t, ";") {
            return (statement, at);
        }
        let mut unnamed = statement.unnamed;
        if token.kind == TokenKind::Identifier && !text::same(t, "type") && !text::same(t, "as") {
            let name = t.to_owned();
            assert(text::string_views(unnamed@.push(name)) =~= text::string_views(unnamed@).push(
                name@,
            ));
            unnamed.push(name);
        }
        if text::same(t, "*") {
            let name = "*".to_owned();
            assert(text::string_views(unnamed@.push(name)) =~= text::string_views(unnamed@).push(
                name@,
            ));
            unnamed.push(name);
        }
        statement = Statement {
            start: statement.start,
            end: statement.end,
            named: statement.named,
            braces: statement.braces,
            unnamed,
        };
        at += 1;
    }
    (statement, at)
}

/// Finds where a statement ends, from a token on.
///
/// Returns its end and the place of the token after it.
fn read_tail(source: &str, code: &Vec<Token>, from: usize, end: usize) -> (found: (usize, usize))
    requires
        from <= code@.len(),
    ensures
        tail_from(source@, code@, from as int, end) == (found.0, found.1 as int),
        from <= found.1 <= code@.len(),
{
    let mut at: usize = from;
    let mut reached: usize = end;
    while at < code.len()
        invariant
            from <= at <= code@.len(),
            tail_from(source@, code@, from as int, end) == tail_from(
                source@,
                code@,
                at as int,
                reached,
            ),
        decreases code@.len() - at,
    {
        if code[at].reads(source, ";") {
            return (code[at].end, at + 1);
        }
        if code.len() - at > 1 && (code[at + 1].reads(source, "import") || code[at + 1].line
            > code[at].line) {
            return (code[at].end, at + 1);
        }
        reached = code[at].end;
        at += 1;
    }
    (reached, at)
}

/// Locates every static `import` statement in the file.
pub fn imports(source: &str, tokens: &Vec<Token>) -> (found: Vec<Statement>)
    ensures
        statements_view(found@) == imports_of(source@, tokens@),
{
    let code = signature::only_code(tokens);
    let mut found: Vec<Statement> = Vec::new();
    let mut at: usize = 0;
    assert(statements_view(found@) =~= Seq::empty());
    while at < code.len()
        invariant
            at <= code@.len(),
            code@ == signature::code_of(tokens@),
            imports_of(source@, tokens@) == imports_from(
                source@,
                code@,
                at as int,
                statements_view(found@),
            ),
        decreases code@.len() - at,
    {
        if code[at].kind != TokenKind::Identifier || !code[at].reads(source, "import") {
            at += 1;
            continue ;
        }
        if code.len() - at > 1 && (code[at + 1].reads(source, "(") || code[at + 1].reads(
            source,
            ".",
        )) {
            at += 1;
            continue ;
        }
        assert(starts_import(source@, code@, at as int));
        let opened = Statement {
            start: code[at].start,
            end: code[at].end,
            named: Vec::new(),
            braces: None,
            unnamed: Vec::new(),
        };
        proof {
            assert(bindings_view(opened.named@) =~= Seq::empty());
            assert(text::string_views(opened.unnamed@) =~= Seq::empty());
        }
        let (bound, middle) = read_bindings(source, &code, at + 1, opened);
        let (end, after) = read_tail(source, &code, middle, bound.end);
        let statement = Statement {
            start: bound.start,
            end,
            named: bound.named,
            braces: bound.braces,
            unnamed: bound.unnamed,
        };
        assert(statements_view(found@.push(statement)) =~= statements_view(found@).push(
            statement@,
        ));
        found.push(statement);
        at = after;
    }
    found
}

/// What a file mentions.
struct Mentions {
    identifiers: Vec<String>,
    interpolations: Vec<String>,
}

impl Mentions {
    /// The mentions without their representation.
    spec fn view(self) -> MentionsView {
        MentionsView {
            identifiers: text::string_views(self.identifiers@),
            interpolations: text::string_views(self.interpolations@),
        }
    }

    /// Whether the code of every template is short enough for its columns to be counted.
    spec fn countable(self) -> bool {
        forall|i: int|
            0 <= i < self.interpolations@.len() ==> text::bytes(
                (#[trigger] self.interpolations@[i])@,
            ).len() < u32::MAX
    }
}

/// Adds the texts of the sections of a text that are code.
fn add_sections(found: &mut Vec<String>, t: &str)
    requires
        text::bytes(t@).len() < u32::MAX,
        forall|i: int|
            0 <= i < old(found)@.len() ==> text::bytes((#[trigger] old(found)@[i])@).len()
                < u32::MAX,
    ensures
        text::string_views(final(found)@) == text::string_views(old(found)@) + section_texts(
            t@,
            occurrences::template_sections_from(text::bytes(t@), 0, Seq::empty()),
        ),
        forall|i: int|
            0 <= i < final(found)@.len() ==> text::bytes((#[trigger] final(found)@[i])@).len()
                < u32::MAX,
{
    let sections = occurrences::interpolation_sections(t);
    let ghost all = occurrences::ranges_view(sections@);
    let ghost start = text::string_views(found@);
    let mut i: usize = 0;
    assert(start + section_texts(t@, all.take(0)) =~= start);
    while i < sections.len()
        invariant
            i <= sections@.len(),
            all == occurrences::ranges_view(sections@),
            text::bytes(t@).len() < u32::MAX,
            text::string_views(found@) == start + section_texts(t@, all.take(i as int)),
            forall|k: int|
                0 <= k < found@.len() ==> text::bytes((#[trigger] found@[k])@).len() < u32::MAX,
        decreases sections@.len() - i,
    {
        proof {
            assert(all.take(i + 1).drop_last() =~= all.take(i as int));
            assert(all.take(i + 1).last() == (
                sections@[i as int].0 as int,
                sections@[i as int].1 as int,
            ));
        }
        match text::get(t, sections[i].0, sections[i].1) {
            Some(part) => {
                let code = part.to_owned();
                proof {
                    text::lemma_cut(t@, sections@[i as int].0 as int, sections@[i as int].1 as int);
                    let before = text::string_views(found@);
                    let texts = section_texts(t@, all.take(i as int));
                    assert(text::string_views(found@.push(code)) =~= before.push(code@));
                    assert((start + texts).push(code@) =~= start + texts.push(code@));
                }
                found.push(code);
            },
            None => {},
        }
        i += 1;
    }
    assert(all.take(i as int) =~= all);
}

/// Reads what a file mentions.
fn read_mentions(source: &str, tokens: &Vec<Token>) -> (found: Mentions)
    requires
        text::bytes(source@).len() < u32::MAX,
    ensures
        found@ == mentions(source@, tokens@),
        found.countable(),
{
    let mut names: Vec<String> = Vec::new();
    let mut codes: Vec<String> = Vec::new();
    let mut i: usize = 0;
    assert(text::string_views(names@) =~= Seq::empty());
    assert(text::string_views(codes@) =~= Seq::empty());
    while i < tokens.len()
        invariant
            i <= tokens@.len(),
            text::bytes(source@).len() < u32::MAX,
            text::string_views(names@) == identifiers(source@, tokens@.take(i as int)),
            text::string_views(codes@) == interpolations(source@, tokens@.take(i as int)),
            forall|k: int|
                0 <= k < codes@.len() ==> text::bytes((#[trigger] codes@[k])@).len() < u32::MAX,
        decreases tokens@.len() - i,
    {
        proof {
            assert(tokens@.take(i + 1).drop_last() =~= tokens@.take(i as int));
            assert(tokens@.take(i + 1).last() == tokens@[i as int]);
            lemma_token_bytes(source@, tokens@[i as int]);
        }
        let t = tokens[i].text(source);
        if tokens[i].kind == TokenKind::Identifier {
            let name = t.to_owned();
            assert(text::string_views(names@.push(name)) =~= text::string_views(names@).push(
                name@,
            ));
            names.push(name);
        }
        if tokens[i].kind == TokenKind::Interpolation || (tokens[i].kind == TokenKind::String
            && text::starts_with(t, "`")) {
            add_sections(&mut codes, t);
        }
        i += 1;
    }
    assert(tokens@.take(i as int) =~= tokens@);
    Mentions { identifiers: names, interpolations: codes }
}

/// A token takes no more bytes than its source.
proof fn lemma_token_bytes(source: Seq<char>, token: Token)
    ensures
        text::bytes(parse::token_text(source, token)).len() <= text::bytes(source).len(),
{
    if text::sliceable(source, token.start as int, token.end as int) {
        text::lemma_cut(source, token.start as int, token.end as int);
    }
    assert(text::bytes(Seq::<char>::empty()) =~= Seq::<u8>::empty());
}

/// Whether a name that is bound in a file is mentioned nowhere else in it.
fn is_mentioned_once(mentioned: &Mentions, name: &str) -> (found: bool)
    requires
        mentioned.countable(),
    ensures
        found == occurs_once(mentioned@, name@),
{
    let ghost names = text::string_views(mentioned.identifiers@);
    let ghost codes = text::string_views(mentioned.interpolations@);
    let mut count: usize = 0;
    let mut i: usize = 0;
    while i < mentioned.identifiers.len()
        invariant
            i <= mentioned.identifiers@.len(),
            names == text::string_views(mentioned.identifiers@),
            count <= i,
            count == times(names.take(i as int), name@),
        decreases mentioned.identifiers@.len() - i,
    {
        assert(names.take(i + 1).drop_last() =~= names.take(i as int));
        if text::same(mentioned.identifiers[i].as_str(), name) {
            count += 1;
        }
        i += 1;
    }
    assert(names.take(i as int) =~= names);
    if count > 1 {
        return false;
    }
    let mut k: usize = 0;
    while k < mentioned.interpolations.len()
        invariant
            k <= mentioned.interpolations@.len(),
            mentioned.countable(),
            codes == text::string_views(mentioned.interpolations@),
            forall|j: int|
                0 <= j < k ==> occurrences::words_from(
                    #[trigger] codes[j],
                    name@,
                    0,
                    Seq::empty(),
                ).len() == 0,
        decreases mentioned.interpolations@.len() - k,
    {
        assert(codes[k as int] == mentioned.interpolations@[k as int]@);
        if occurrences::words_in(mentioned.interpolations[k].as_str(), name).len() > 0 {
            return false;
        }
        k += 1;
    }
    true
}

/// Adds one deletion to the plan, or nothing when its position cannot be expressed exactly.
fn delete(builder: PlanBuilder, source: &str, from: usize, to: usize) -> (out: PlanBuilder)
    requires
        text::bytes(source@).len() < u32::MAX,
    ensures
        out@ == deleted(builder@, source@, (from as int, to as int)),
{
    let start = match edit_symbol::locate_offset(source, from) {
        Some(start) => start,
        None => {
            return builder;
        },
    };
    let end = match edit_symbol::locate_offset(source, to) {
        Some(end) => end,
        None => {
            return builder;
        },
    };
    match text::get(source, from, to) {
        Some(before) => {
            proof {
                reveal_strlit("");
                assert(""@ =~= Seq::<char>::empty());
            }
            builder.edit(start.0, start.1, end.0, end.1, before, "", "LEXICAL_EXACT")
        },
        None => builder,
    }
}

/// Byte ranges as mathematical values.
pub open spec fn ranges_view(ranges: Seq<(usize, usize)>) -> Seq<(int, int)> {
    Seq::new(ranges.len(), |i: int| (ranges[i].0 as int, ranges[i].1 as int))
}

/// The bytes to delete for the runs of consecutive unused bindings.
fn runs(named: &Vec<Binding>, unused: &Vec<bool>) -> (ranges: Vec<(usize, usize)>)
    requires
        unused@.len() == named@.len(),
    ensures
        ranges_view(ranges@) == runs_from(bindings_view(named@), unused@, 0, Seq::empty()),
{
    let ghost all = bindings_view(named@);
    let mut ranges: Vec<(usize, usize)> = Vec::new();
    let mut at: usize = 0;
    assert(ranges_view(ranges@) =~= Seq::empty());
    while at < named.len()
        invariant
            at <= named@.len(),
            unused@.len() == named@.len(),
            all == bindings_view(named@),
            runs_from(all, unused@, 0, Seq::empty()) == runs_from(
                all,
                unused@,
                at as int,
                ranges_view(ranges@),
            ),
        decreases named@.len() - at,
    {
        if !unused[at] {
            at += 1;
            continue ;
        }
        let mut last: usize = at;
        while named.len() - last > 1 && unused[last + 1]
            invariant
                at <= last < named@.len(),
                unused@.len() == named@.len(),
                run_end(unused@, at as int) == run_end(unused@, last as int),
            decreases named@.len() - last,
        {
            last += 1;
        }
        assert(run_end(unused@, at as int) == last);
        assert(all[at as int] == named@[at as int]@);
        assert(all[last as int] == named@[last as int]@);
        if named.len() - last > 1 {
            // A binding survives after the run: take the run and the comma that follows it.
            let range = (named[at].start, named[last + 1].start);
            assert(all[last + 1] == named@[last + 1]@);
            assert(ranges_view(ranges@.push(range)) =~= ranges_view(ranges@).push(
                (range.0 as int, range.1 as int),
            ));
            ranges.push(range);
        } else if at > 0 {
            // The run ends the group: take the comma that precedes it.
            let range = (named[at - 1].end, named[last].end);
            assert(all[at - 1] == named@[at - 1]@);
            assert(ranges_view(ranges@.push(range)) =~= ranges_view(ranges@).push(
                (range.0 as int, range.1 as int),
            ));
            ranges.push(range);
        }
        at = last + 1;
    }
    ranges
}

/// The start of the line that an offset is on, where only white space stands between them.
fn find_clear_before(source: &str, start: usize) -> (found: Option<usize>)
    ensures
        match (found, clear_before(source@, start as int)) {
            (Some(from), Some(expected)) => from == expected,
            (None, None) => true,
            _ => false,
        },
{
    let encoded = source.as_bytes();
    if start > encoded.len() {
        return None;
    }
    let mut begin: usize = start;
    while begin > 0 && encoded[begin - 1] != 10
        invariant
            begin <= start <= encoded@.len(),
            encoded@ == text::bytes(source@),
            coordinates::line_begin(encoded@.subrange(0, start as int)) == coordinates::line_begin(
                encoded@.subrange(0, begin as int),
            ),
        decreases begin,
    {
        proof {
            assert(encoded@.subrange(0, begin as int).drop_last() =~= encoded@.subrange(
                0,
                begin - 1,
            ));
            assert(encoded@.subrange(0, begin as int).last() == encoded@[begin - 1]);
        }
        begin -= 1;
    }
    proof {
        if begin > 0 {
            assert(encoded@.subrange(0, begin as int).last() == encoded@[begin - 1]);
        }
    }
    match text::get(source, begin, start) {
        Some(before) => if words::is_blank(before) {
            Some(begin)
        } else {
            None
        },
        None => None,
    }
}

/// The end of the line that an offset is on, where only white space stands between them.
fn find_clear_behind(source: &str, end: usize) -> (found: Option<usize>)
    ensures
        match (found, clear_behind(source@, end as int)) {
            (Some(to), Some(expected)) => to == expected,
            (None, None) => true,
            _ => false,
        },
{
    proof {
        reveal_strlit("\n");
        assert("\n"@.len() == 1);
        vstd::utf8::is_ascii_chars_encode_utf8("\n"@);
        assert(text::bytes("\n"@).len() == 1);
    }
    let length: usize = source.as_bytes().len();
    let newline = text::find(source, "\n", end);
    let last: usize = match newline {
        Some(at) => at,
        None => length,
    };
    match text::get(source, end, last) {
        Some(rest) => if words::is_blank(rest) {
            match newline {
                Some(at) => Some(at + 1),
                None => Some(end),
            }
        } else {
            None
        },
        None => None,
    }
}

/// Extends a statement's range to swallow its own lines when nothing else shares them.
fn whole_lines(source: &str, start: usize, end: usize) -> (range: (usize, usize))
    ensures
        (range.0 as int, range.1 as int) == own_lines(source@, start as int, end as int),
{
    match (find_clear_before(source, start), find_clear_behind(source, end)) {
        (Some(from), Some(to)) => (from, to),
        _ => (start, end),
    }
}

/// Where the deletion of a braces group starts: at the comma before it in the same statement.
///
/// Bounded to the statement: a file-wide search would find the comma of an earlier import and
/// delete everything between the two.
fn find_comma(source: &str, start: usize, open: usize) -> (at: usize)
    ensures
        at == comma_before(source@, start as int, open as int),
{
    let encoded = source.as_bytes();
    if start > open || open > encoded.len() {
        return open;
    }
    let ghost part = encoded@.subrange(start as int, open as int);
    let mut i: usize = open;
    assert(part.take(part.len() as int) =~= part);
    while i > start
        invariant
            start <= i <= open <= encoded@.len(),
            encoded@ == text::bytes(source@),
            part == encoded@.subrange(start as int, open as int),
            last_comma(part) == last_comma(part.take(i - start)),
        decreases i - start,
    {
        proof {
            assert(part.take(i - start).drop_last() =~= part.take(i - start - 1));
            assert(part.take(i - start).last() == encoded@[i - 1]);
        }
        if encoded[i - 1] == 44 {
            return i - 1;
        }
        i -= 1;
    }
    assert(part.take(0).len() == 0);
    open
}

/// Which bindings of a statement nothing uses.
fn find_unused(named: &Vec<Binding>, mentioned: &Mentions) -> (flags: Vec<bool>)
    requires
        mentioned.countable(),
    ensures
        flags@ == unused_flags(bindings_view(named@), mentioned@),
{
    let ghost expected = unused_flags(bindings_view(named@), mentioned@);
    let mut flags: Vec<bool> = Vec::new();
    let mut i: usize = 0;
    while i < named.len()
        invariant
            i <= named@.len(),
            mentioned.countable(),
            expected == unused_flags(bindings_view(named@), mentioned@),
            flags@ =~= expected.take(i as int),
        decreases named@.len() - i,
    {
        flags.push(is_mentioned_once(mentioned, named[i].local.as_str()));
        i += 1;
    }
    assert(flags@ =~= expected);
    flags
}

/// Whether every flag is set.
fn are_all_set(flags: &Vec<bool>) -> (found: bool)
    ensures
        found == all_set(flags@),
{
    let mut i: usize = 0;
    while i < flags.len()
        invariant
            i <= flags@.len(),
            forall|k: int| 0 <= k < i ==> #[trigger] flags@[k],
        decreases flags@.len() - i,
    {
        if !flags[i] {
            return false;
        }
        i += 1;
    }
    true
}

/// Appends the names of the bindings whose flag is set.
fn add_flagged(removed: &mut Vec<String>, named: &Vec<Binding>, flags: &Vec<bool>)
    requires
        flags@.len() == named@.len(),
    ensures
        text::string_views(final(removed)@) == text::string_views(old(removed)@) + flagged(
            bindings_view(named@),
            flags@,
        ),
{
    let ghost all = bindings_view(named@);
    let ghost start = text::string_views(removed@);
    let mut i: usize = 0;
    assert(start + flagged(all.take(0), flags@.take(0)) =~= start);
    while i < named.len()
        invariant
            i <= named@.len(),
            flags@.len() == named@.len(),
            all == bindings_view(named@),
            text::string_views(removed@) == start + flagged(
                all.take(i as int),
                flags@.take(i as int),
            ),
        decreases named@.len() - i,
    {
        proof {
            assert(all.take(i + 1).drop_last() =~= all.take(i as int));
            assert(flags@.take(i + 1).drop_last() =~= flags@.take(i as int));
            assert(all.take(i + 1).last() == named@[i as int]@);
        }
        let ghost kept = flagged(all.take(i as int), flags@.take(i as int));
        if flags[i] {
            let name = named[i].local.clone();
            proof {
                let before = text::string_views(removed@);
                assert(text::string_views(removed@.push(name)) =~= before.push(name@));
                assert((start + kept).push(name@) =~= start + kept.push(name@));
            }
            removed.push(name);
        }
        i += 1;
    }
    assert(all.take(i as int) =~= all);
    assert(flags@.take(i as int) =~= flags@);
}

/// Plans one statement's removals and records which bindings they took.
fn plan_statement(
    builder: PlanBuilder,
    source: &str,
    statement: &Statement,
    mentioned: &Mentions,
    removed: &mut Vec<String>,
) -> (out: PlanBuilder)
    requires
        mentioned.countable(),
        text::bytes(source@).len() < u32::MAX,
    ensures
        (out@, text::string_views(final(removed)@)) == judged(
            builder@,
            text::string_views(old(removed)@),
            source@,
            statement@,
            mentioned@,
        ),
{
    let flags = find_unused(&statement.named, mentioned);
    if statement.named.len() != 0 && are_all_set(&flags) {
        let (from, to) = if statement.unnamed.len() == 0 {
            whole_lines(source, statement.start, statement.end)
        } else {
            match statement.braces {
                Some((open, close)) => (find_comma(source, statement.start, open), close),
                None => {
                    return builder;
                },
            }
        };
        add_flagged(removed, &statement.named, &flags);
        return delete(builder, source, from, to);
    }
    let ranges = runs(&statement.named, &flags);
    let ghost all = ranges_view(ranges@);
    let mut out = builder;
    let mut i: usize = 0;
    assert(all_deleted(builder@, source@, all.take(0)) == builder@);
    while i < ranges.len()
        invariant
            i <= ranges@.len(),
            all == ranges_view(ranges@),
            text::bytes(source@).len() < u32::MAX,
            out@ == all_deleted(builder@, source@, all.take(i as int)),
        decreases ranges@.len() - i,
    {
        proof {
            assert(all.take(i + 1).drop_last() =~= all.take(i as int));
            assert(all.take(i + 1).last() == (ranges@[i as int].0 as int, ranges@[i as int].1 as int));
        }
        out = delete(out, source, ranges[i].0, ranges[i].1);
        i += 1;
    }
    assert(all.take(i as int) =~= all);
    add_flagged(removed, &statement.named, &flags);
    out
}

/// The names of the bindings of statements.
fn all_locals(statements: &Vec<Statement>) -> (found: Vec<String>)
    ensures
        text::string_views(found@) == locals(statements_view(statements@)),
{
    let ghost all = statements_view(statements@);
    let mut found: Vec<String> = Vec::new();
    let mut i: usize = 0;
    assert(text::string_views(found@) =~= Seq::empty());
    while i < statements.len()
        invariant
            i <= statements@.len(),
            all == statements_view(statements@),
            text::string_views(found@) == locals(all.take(i as int)),
        decreases statements@.len() - i,
    {
        proof {
            assert(all.take(i + 1).drop_last() =~= all.take(i as int));
            assert(all.take(i + 1).last() == statements@[i as int]@);
        }
        let named = &statements[i].named;
        let ghost start = text::string_views(found@);
        let ghost names = Seq::new(named@.len(), |k: int| named@[k].local@);
        let mut k: usize = 0;
        assert(start + names.take(0) =~= start);
        while k < named.len()
            invariant
                k <= named@.len(),
                names == Seq::new(named@.len(), |k: int| named@[k].local@),
                text::string_views(found@) == start + names.take(k as int),
            decreases named@.len() - k,
        {
            let name = named[k].local.clone();
            proof {
                let before = text::string_views(found@);
                assert(text::string_views(found@.push(name)) =~= before.push(name@));
                assert((start + names.take(k as int)).push(name@) =~= start + names.take(k + 1));
            }
            found.push(name);
            k += 1;
        }
        proof {
            let view = bindings_view(named@);
            assert(names.take(k as int) =~= Seq::new(view.len(), |j: int| view[j].local));
        }
        i += 1;
    }
    assert(all.take(i as int) =~= all);
    found
}

/// The default and namespace bindings of statements, as they are reported.
fn report_defaults(statements: &Vec<Statement>) -> (items: Items)
    ensures
        items@ == uncertain_values(defaults(statements_view(statements@))),
{
    let ghost all = statements_view(statements@);
    let mut items = Items::new();
    let mut i: usize = 0;
    assert(items@ =~= uncertain_values(defaults(all.take(0))));
    while i < statements.len()
        invariant
            i <= statements@.len(),
            all == statements_view(statements@),
            items@ == uncertain_values(defaults(all.take(i as int))),
        decreases statements@.len() - i,
    {
        proof {
            assert(all.take(i + 1).drop_last() =~= all.take(i as int));
            assert(all.take(i + 1).last() == statements@[i as int]@);
        }
        let names = &statements[i].unnamed;
        let ghost start = defaults(all.take(i as int));
        let ghost more = text::string_views(names@);
        let mut k: usize = 0;
        assert(start + more.take(0) =~= start);
        while k < names.len()
            invariant
                k <= names@.len(),
                more == text::string_views(names@),
                items@ == uncertain_values(start + more.take(k as int)),
            decreases names@.len() - k,
        {
            let value = Fields::new().with_text("binding", names[k].as_str()).with_text(
                "kind",
                "UNCERTAIN",
            ).with_text(
                "reason",
                "a default or namespace import can be used by a transform rather than by name, so its occurrences prove nothing",
            ).done();
            proof {
                let extended = start + more.take(k + 1);
                assert(extended =~= (start + more.take(k as int)).push(more[k as int]));
                assert(value@ == uncertain_value(more[k as int]));
                assert(uncertain_values(extended) =~= uncertain_values(
                    start + more.take(k as int),
                ).push(value@));
            }
            items.push(value);
            k += 1;
        }
        assert(more.take(k as int) =~= more);
        i += 1;
    }
    assert(all.take(i as int) =~= all);
    items
}

/// The answer for a file, given its tokens and the name of its language.
pub fn organize_tokens(path: &str, source: &str, tokens: &Vec<Token>, language: &str) -> (value: Json)
    requires
        text::bytes(source@).len() < u32::MAX,
    ensures
        value@ == tokens_answer(path@, source@, tokens@, language@),
{
    let statements = imports(source, tokens);
    let candidates = all_locals(&statements);
    if !text::same(language, "JavaScript") && !text::same(language, "TypeScript") {
        return Fields::new().with_text("status", "UNPROVEN").with_text("file", path).with_text(
            "language",
            language,
        ).with_list("candidates", operations::string_items(&candidates)).with_text(
            "reason",
            "outside JavaScript and TypeScript an import can be used without its name appearing - a Rust trait through one of its methods, a Python re-export through the module's public API - so an occurrence count cannot prove a binding is unused and nothing was planned",
        ).done();
    }
    if statements.len() == 0 {
        return Fields::new().with_text("status", "NO_UNUSED_IMPORTS").with_text(
            "file",
            path,
        ).with_text("reason", "the file declares no static imports").done();
    }
    let mentioned = read_mentions(source, tokens);
    let ghost all = statements_view(statements@);
    let mut builder = PlanBuilder::new("organize_imports").file(
        path,
        plan::sha256_of(source).as_str(),
    );
    let ghost opened = builder@;
    let mut removed: Vec<String> = Vec::new();
    let mut i: usize = 0;
    assert(text::string_views(removed@) =~= Seq::empty());
    while i < statements.len()
        invariant
            i <= statements@.len(),
            all == statements_view(statements@),
            mentioned.countable(),
            text::bytes(source@).len() < u32::MAX,
            (builder@, text::string_views(removed@)) == all_judged(
                opened,
                source@,
                all.take(i as int),
                mentioned@,
            ),
        decreases statements@.len() - i,
    {
        proof {
            assert(all.take(i + 1).drop_last() =~= all.take(i as int));
            assert(all.take(i + 1).last() == statements@[i as int]@);
        }
        builder = plan_statement(builder, source, &statements[i], &mentioned, &mut removed);
        i += 1;
    }
    assert(all.take(i as int) =~= all);
    let reported = report_defaults(&statements);
    if removed.len() == 0 {
        return Fields::new().with_text("status", "NO_UNUSED_IMPORTS").with_text(
            "file",
            path,
        ).with_number("checkedBindings", candidates.len() as u64).with_list(
            "uncertain",
            reported,
        ).with_text("reason", "every named binding occurs somewhere else in the file").done();
    }
    let mut warnings = Items::new();
    warnings.push(json::string("OCCURRENCE_COUNTED_WITHIN_FILE"));
    Fields::new().with_text("status", "PLANNED").with_text("completeness", "PARTIAL").with_text(
        "file",
        path,
    ).with_list("removed", operations::string_items(&removed)).with_list(
        "uncertain",
        reported,
    ).with("plan", builder.build()).with_list("warnings", warnings).with_text(
        "next",
        "apply with apply_edit_plan (preview -> confirm). Sorting is left to the formatter; only provably-unused named bindings were removed.",
    ).done()
}

/// `organize_imports`: removes the named imports of a file that nothing in it uses.
pub fn organize_imports(repository: &Repository, arguments: &Json) -> (value: Json)
    ensures
        value@ == organize_imports_answer(*repository, arguments@),
{
    proof {
        reveal(organize_imports_answer);
    }
    let path = match arguments.text("file") {
        Some(path) => path,
        None => {
            return operations::missing_one("organize_imports", "file");
        },
    };
    let source = match evidence::read_source(&repository.sources, path) {
        Some(source) => source,
        None => {
            let reason = path.to_owned().concat(" could not be read from the active repository");
            return operations::answer("SOURCE_UNAVAILABLE", reason.as_str());
        },
    };
    let length: usize = source.as_bytes().len();
    if length > MAX_BYTES {
        let reason = path.to_owned().concat(" is ").concat(
            words::number(length as u64).as_str(),
        ).concat(" bytes; the limit is 2097152");
        return operations::answer("FILE_TOO_LARGE", reason.as_str());
    }
    match parse::language_at(path) {
        Some(language) => {
            let tokens = parse::tokenize(source, language);
            organize_tokens(path, source, &tokens, parse::language_name(language).as_str())
        },
        None => {
            let reason = path.to_owned().concat(
                " has no recognised language, so its imports were not read",
            );
            operations::answer("UNPROVEN", reason.as_str())
        },
    }
}

/// Whether bindings stand one after another.
pub open spec fn in_order(named: Seq<BindingView>) -> bool {
    &&& forall|i: int| 0 <= i < named.len() ==> (#[trigger] named[i]).start <= named[i].end
    &&& forall|i: int, j: int|
        0 <= i < j < named.len() ==> (#[trigger] named[i]).end <= (#[trigger] named[j]).start
}

/// Whether a range takes a binding whole.
pub open spec fn takes(range: (int, int), binding: BindingView) -> bool {
    range.0 <= binding.start && binding.end <= range.1
}

/// Whether one of the ranges takes a binding whole.
pub open spec fn taken(ranges: Seq<(int, int)>, binding: BindingView) -> bool {
    exists|r: int| 0 <= r < ranges.len() && takes(#[trigger] ranges[r], binding)
}

/// Whether a range takes no byte of a binding.
pub open spec fn spares(range: (int, int), binding: BindingView) -> bool {
    binding.end <= range.0 || range.1 <= binding.start
}

/// What the ranges found so far have in common, when the reading has come as far as a binding.
spec fn runs_so_far(
    named: Seq<BindingView>,
    unused: Seq<bool>,
    at: int,
    found: Seq<(int, int)>,
) -> bool {
    &&& forall|r: int| 0 <= r < found.len() ==> (#[trigger] found[r]).0 <= found[r].1
    &&& forall|r: int, q: int|
        0 <= r < q < found.len() ==> (#[trigger] found[r]).1 <= (#[trigger] found[q]).0
    &&& forall|b: int, r: int|
        0 <= b < at && !unused[b] && 0 <= r < found.len() ==> spares(
            #[trigger] found[r],
            #[trigger] named[b],
        )
    &&& forall|b: int|
        0 <= b < at && unused[b] ==> taken(found, #[trigger] named[b])
    &&& at < named.len() ==> forall|r: int|
        0 <= r < found.len() ==> (#[trigger] found[r]).1 <= named[at].start
    &&& 0 < at < named.len() && unused[at] ==> !unused[at - 1] && forall|r: int|
        0 <= r < found.len() ==> (#[trigger] found[r]).1 <= named[at - 1].start
}

/// The last binding of a run, and the one after it.
proof fn lemma_run_end(unused: Seq<bool>, at: int)
    requires
        0 <= at < unused.len(),
        unused[at],
    ensures
        at <= run_end(unused, at) < unused.len(),
        forall|b: int| at <= b <= run_end(unused, at) ==> #[trigger] unused[b],
        run_end(unused, at) + 1 < unused.len() ==> !unused[run_end(unused, at) + 1],
    decreases unused.len() - at,
{
    if at + 1 < unused.len() && unused[at + 1] {
        lemma_run_end(unused, at + 1);
    }
}

/// Finding the runs from one binding on keeps what the ranges have in common.
proof fn lemma_runs_from(
    named: Seq<BindingView>,
    unused: Seq<bool>,
    at: int,
    found: Seq<(int, int)>,
)
    requires
        in_order(named),
        unused.len() == named.len(),
        !all_set(unused),
        0 <= at <= named.len(),
        runs_so_far(named, unused, at, found),
        0 < at < named.len() && unused[at] ==> !unused[at - 1],
    ensures
        runs_so_far(
            named,
            unused,
            named.len() as int,
            runs_from(named, unused, at, found),
        ),
    decreases named.len() - at,
{
    if at < named.len() {
        assert(named[at].start <= named[at].end);
        if !unused[at] {
            assert forall|r: int| 0 <= r < found.len() implies (#[trigger] found[r]).1
                <= named[at].start by {}
            if at + 1 < named.len() {
                assert(named[at].end <= named[at + 1].start);
            }
            assert forall|b: int, r: int|
                0 <= b < at + 1 && !unused[b] && 0 <= r < found.len() implies spares(
                #[trigger] found[r],
                #[trigger] named[b],
            ) by {
                if b == at {
                    assert(found[r].1 <= named[at].start);
                }
            }
            lemma_runs_from(named, unused, at + 1, found);
        } else {
            lemma_run_end(unused, at);
            let last = run_end(unused, at);
            if last + 1 < named.len() {
                let range = (named[at].start as int, named[last + 1].start as int);
                let more = found.push(range);
                assert(named[at].end <= named[last + 1].start);
                assert forall|b: int| 0 <= b < last + 1 && unused[b] implies taken(
                    more,
                    #[trigger] named[b],
                ) by {
                    if b < at {
                        assert(taken(found, named[b]));
                        let r = choose|r: int|
                            0 <= r < found.len() && takes(#[trigger] found[r], named[b]);
                        assert(more[r] == found[r]);
                    } else {
                        if b > at {
                            assert(named[at].end <= named[b].start);
                        }
                        assert(named[b].end <= named[last + 1].start);
                        assert(takes(more[found.len() as int], named[b]));
                    }
                }
                assert forall|b: int, r: int|
                    0 <= b < last + 1 && !unused[b] && 0 <= r < more.len() implies spares(
                    #[trigger] more[r],
                    #[trigger] named[b],
                ) by {
                    assert(b < at);
                    assert(named[b].end <= named[at].start);
                    if r < found.len() {
                        assert(more[r] == found[r]);
                        assert(spares(found[r], named[b]));
                    }
                }
                assert(!unused[last + 1]);
                assert forall|r: int| 0 <= r < more.len() implies (#[trigger] more[r]).1
                    <= named[last + 1].start by {
                    if r < found.len() {
                        assert(more[r] == found[r]);
                    }
                }
                lemma_runs_from(named, unused, last + 1, more);
            } else if at > 0 {
                let range = (named[at - 1].end as int, named[last].end as int);
                let more = found.push(range);
                assert(named[at - 1].start <= named[at - 1].end);
                assert(named[at - 1].end <= named[at].start);
                if last > at {
                    assert(named[at].end <= named[last].start);
                }
                assert(named[last].start <= named[last].end);
                assert forall|r: int, q: int| 0 <= r < q < more.len() implies (
                #[trigger] more[r]).1 <= (#[trigger] more[q]).0 by {
                    assert(more[r] == found[r]);
                    if q < found.len() {
                        assert(more[q] == found[q]);
                    } else {
                        assert(found[r].1 <= named[at - 1].start);
                    }
                }
                assert forall|b: int| 0 <= b < last + 1 && unused[b] implies taken(
                    more,
                    #[trigger] named[b],
                ) by {
                    if b < at {
                        assert(taken(found, named[b]));
                        let r = choose|r: int|
                            0 <= r < found.len() && takes(#[trigger] found[r], named[b]);
                        assert(more[r] == found[r]);
                    } else {
                        assert(named[at - 1].end <= named[b].start);
                        if b < last {
                            assert(named[b].end <= named[last].start);
                        }
                        assert(takes(more[found.len() as int], named[b]));
                    }
                }
                assert forall|b: int, r: int|
                    0 <= b < last + 1 && !unused[b] && 0 <= r < more.len() implies spares(
                    #[trigger] more[r],
                    #[trigger] named[b],
                ) by {
                    assert(b < at);
                    if b < at - 1 {
                        assert(named[b].end <= named[at - 1].start);
                    }
                    if r < found.len() {
                        assert(more[r] == found[r]);
                        assert(spares(found[r], named[b]));
                    }
                }
                lemma_runs_from(named, unused, last + 1, more);
            } else {
                assert(all_set(unused));
            }
        }
    }
}

/// Where some binding of a group survives, the deleted ranges never overlap, take every unused
/// binding whole, and take no byte of a binding that is used.
pub proof fn law_runs_take_the_unused_bindings(named: Seq<BindingView>, unused: Seq<bool>)
    requires
        in_order(named),
        unused.len() == named.len(),
        !all_set(unused),
    ensures
        ({
            let ranges = runs_from(named, unused, 0, Seq::empty());
            &&& forall|r: int, q: int|
                0 <= r < q < ranges.len() ==> (#[trigger] ranges[r]).1 <= (#[trigger] ranges[q]).0
            &&& forall|b: int, r: int|
                0 <= b < named.len() && !unused[b] && 0 <= r < ranges.len() ==> spares(
                    #[trigger] ranges[r],
                    #[trigger] named[b],
                )
            &&& forall|b: int|
                0 <= b < named.len() && unused[b] ==> taken(ranges, #[trigger] named[b])
        }),
{
    lemma_runs_from(named, unused, 0, Seq::empty());
}

/// The names that flags pick are names of bindings whose flag is set.
proof fn lemma_flagged(named: Seq<BindingView>, flags: Seq<bool>, name: Seq<char>)
    requires
        flags.len() == named.len(),
        flagged(named, flags).contains(name),
    ensures
        exists|i: int| 0 <= i < named.len() && flags[i] && (#[trigger] named[i]).local == name,
    decreases named.len(),
{
    if named.len() > 0 {
        let before = flagged(named.drop_last(), flags.drop_last());
        let out = flagged(named, flags);
        let k = choose|k: int| 0 <= k < out.len() && out[k] == name;
        if k < before.len() {
            assert(before[k] == name);
            lemma_flagged(named.drop_last(), flags.drop_last(), name);
            let i = choose|i: int|
                0 <= i < named.len() - 1 && flags.drop_last()[i] && (
                #[trigger] named.drop_last()[i]).local == name;
            assert(flags[i] && named[i].local == name);
        } else {
            assert(flags[flags.len() - 1] && named[named.len() - 1].local == name);
        }
    }
}

/// No name is reported as removed whose identifier occurs more than once in the file, or in the
/// code of a template.
pub proof fn law_no_used_binding_is_removed(
    builder: BuilderView,
    source: Seq<char>,
    statements: Seq<StatementView>,
    mentioned: MentionsView,
    name: Seq<char>,
)
    requires
        all_judged(builder, source, statements, mentioned).1.contains(name),
    ensures
        occurs_once(mentioned, name),
    decreases statements.len(),
{
    if statements.len() > 0 {
        let (before, removed) = all_judged(builder, source, statements.drop_last(), mentioned);
        let statement = statements.last();
        let flags = unused_flags(statement.named, mentioned);
        let gone = flagged(statement.named, flags);
        let out = all_judged(builder, source, statements, mentioned).1;
        let k = choose|k: int| 0 <= k < out.len() && out[k] == name;
        if k < removed.len() {
            assert(removed[k] == name);
            law_no_used_binding_is_removed(builder, source, statements.drop_last(), mentioned, name);
        } else {
            assert(gone[k - removed.len()] == name);
            lemma_flagged(statement.named, flags, name);
        }
    }
}

/// Outside JavaScript and TypeScript nothing is ever planned.
pub proof fn law_other_languages_are_unproven(
    path: Seq<char>,
    source: Seq<char>,
    tokens: Seq<Token>,
    language: Seq<char>,
)
    requires
        !counts_prove(language),
    ensures
        tokens_answer(path, source, tokens, language).text("status"@) == Some("UNPROVEN"@),
        tokens_answer(path, source, tokens, language).get("plan"@) is None,
{
    broadcast use json::lemma_with_get;

    reveal_strlit("status");
    reveal_strlit("file");
    reveal_strlit("language");
    reveal_strlit("candidates");
    reveal_strlit("reason");
    reveal_strlit("plan");
    assert("status"@.len() == 6 && "file"@.len() == 4 && "language"@.len() == 8
        && "candidates"@.len() == 10 && "reason"@.len() == 6 && "plan"@.len() == 4);
    assert("plan"@[0] == 'p' && "file"@[0] == 'f');
}

/// Every answer of this operation keeps to the contract.
pub proof fn law_answers_conform(
    repository: Repository,
    arguments: JsonView,
)
    ensures
        contract::conforms(organize_imports_answer(repository, arguments)),
{
    broadcast use json::lemma_with_get;

    reveal(organize_imports_answer);
    contract::lemma_keys();
}

/// Deleting ranges keeps a plan sound.
proof fn lemma_deleted_sound(builder: BuilderView, source: Seq<char>, ranges: Seq<(int, int)>)
    requires
        envelope::sound(builder),
    ensures
        envelope::sound(all_deleted(builder, source, ranges)),
    decreases ranges.len(),
{
    broadcast use envelope::lemma_sound_edit;

    if ranges.len() > 0 {
        lemma_deleted_sound(builder, source, ranges.drop_last());
    }
}

/// Judging statements keeps a plan sound.
proof fn lemma_judged_sound(
    builder: BuilderView,
    source: Seq<char>,
    statements: Seq<StatementView>,
    mentioned: MentionsView,
)
    requires
        envelope::sound(builder),
    ensures
        envelope::sound(all_judged(builder, source, statements, mentioned).0),
    decreases statements.len(),
{
    broadcast use envelope::lemma_sound_edit;

    if statements.len() > 0 {
        lemma_judged_sound(builder, source, statements.drop_last(), mentioned);
        let before = all_judged(builder, source, statements.drop_last(), mentioned).0;
        let statement = statements.last();
        lemma_deleted_sound(
            before,
            source,
            runs_from(
                statement.named,
                unused_flags(statement.named, mentioned),
                0,
                Seq::empty(),
            ),
        );
    }
}

/// The plan of a file that has edits is one that the applier reads back.
pub proof fn law_the_plan_reads_back(
    path: Seq<char>,
    source: Seq<char>,
    statements: Seq<StatementView>,
    mentioned: MentionsView,
)
    ensures
        ({
            let opened = BuilderView::start("organize_imports"@).file(
                path,
                plan::sha256_hex(source),
            );
            let built = all_judged(opened, source, statements, mentioned).0;
            !built.is_empty() ==> envelope::plan_of(plan::plan_value(built.plan())) == Ok::<
                PlanView,
                Seq<char>,
            >(built.plan())
        }),
{
    broadcast use envelope::lemma_sound_start, envelope::lemma_sound_file;

    let opened = BuilderView::start("organize_imports"@).file(path, plan::sha256_hex(source));
    let built = all_judged(opened, source, statements, mentioned).0;
    lemma_judged_sound(opened, source, statements, mentioned);
    if !built.is_empty() {
        envelope::law_a_sound_plan_reads_back(built);
    }
}

/// Deleting a range keeps a plan fitting.
proof fn lemma_deletion_fits(
    sources: Seq<SourceFile>,
    builder: BuilderView,
    source: Seq<char>,
    range: (int, int),
)
    requires
        fit::fits(sources, builder),
        fit::open_on(sources, builder, source),
    ensures
        fit::fits(sources, deleted(builder, source, range)),
        fit::open_on(sources, deleted(builder, source, range), source),
{
    fit::lemma_source_bound(sources, builder.files[builder.current->0].path);
    match deletion(source, range.0, range.1) {
        Some(edit) => {
            edit_symbol::lemma_range_stands(source, edit, range.0, range.1);
            fit::lemma_fits_edit(sources, builder, source, edit);
        },
        None => {},
    }
}

/// Deleting ranges keeps a plan fitting.
proof fn lemma_deleted_fits(
    sources: Seq<SourceFile>,
    builder: BuilderView,
    source: Seq<char>,
    ranges: Seq<(int, int)>,
)
    requires
        fit::fits(sources, builder),
        fit::open_on(sources, builder, source),
    ensures
        fit::fits(sources, all_deleted(builder, source, ranges)),
        fit::open_on(sources, all_deleted(builder, source, ranges), source),
    decreases ranges.len(),
{
    if ranges.len() > 0 {
        lemma_deleted_fits(sources, builder, source, ranges.drop_last());
        lemma_deletion_fits(
            sources,
            all_deleted(builder, source, ranges.drop_last()),
            source,
            ranges.last(),
        );
    }
}

/// Judging statements keeps a plan fitting.
proof fn lemma_judged_fits(
    sources: Seq<SourceFile>,
    builder: BuilderView,
    source: Seq<char>,
    statements: Seq<StatementView>,
    mentioned: MentionsView,
)
    requires
        fit::fits(sources, builder),
        fit::open_on(sources, builder, source),
    ensures
        fit::fits(sources, all_judged(builder, source, statements, mentioned).0),
        fit::open_on(sources, all_judged(builder, source, statements, mentioned).0, source),
    decreases statements.len(),
{
    if statements.len() > 0 {
        lemma_judged_fits(sources, builder, source, statements.drop_last(), mentioned);
        let before = all_judged(builder, source, statements.drop_last(), mentioned).0;
        let statement = statements.last();
        lemma_deletion_fits(
            sources,
            before,
            source,
            own_lines(source, statement.start as int, statement.end as int),
        );
        match statement.braces {
            Some((open, close)) => {
                lemma_deletion_fits(
                    sources,
                    before,
                    source,
                    (
                        comma_before(source, statement.start as int, open as int),
                        close as int,
                    ),
                );
            },
            None => {},
        }
        lemma_deleted_fits(
            sources,
            before,
            source,
            runs_from(
                statement.named,
                unused_flags(statement.named, mentioned),
                0,
                Seq::empty(),
            ),
        );
    }
}

/// Every edit of a plan stands in the source it was made from: the text it removes is the text
/// between its positions, and its file carries that source's hash.
pub proof fn law_the_plan_fits_the_sources(repository: Repository, arguments: JsonView)
    ensures
        fit::answer_fits(repository.sources@, organize_imports_answer(repository, arguments)),
{
    broadcast use json::lemma_with_get, envelope::lemma_sound_start, envelope::lemma_sound_file;

    reveal(organize_imports_answer);
    fit::lemma_plan_key();
    let sources = repository.sources@;
    let answer = organize_imports_answer(repository, arguments);
    match arguments.text("file"@) {
        Some(path) => match (
            evidence::source_of(sources, path),
            parse::path_language(path),
        ) {
            (Some(source), Some(language)) => {
                let tokens = parse::tokens_of(source, language);
                let statements = imports_of(source, tokens);
                let mentioned = mentions(source, tokens);
                let empty = BuilderView::start("organize_imports"@);
                let opened = empty.file(path, plan::sha256_hex(source));
                let built = all_judged(opened, source, statements, mentioned).0;
                fit::lemma_fits_start(sources, "organize_imports"@);
                fit::lemma_fits_file(sources, empty, path, source);
                lemma_judged_sound(opened, source, statements, mentioned);
                lemma_judged_fits(sources, opened, source, statements, mentioned);
                if answer.get("plan"@) is Some {
                    fit::lemma_answer_fits(sources, answer, built);
                }
            },
            _ => {},
        },
        None => {},
    }
}

} // verus!
