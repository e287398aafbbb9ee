//! What organizing imports promises: a named binding goes exactly where nothing else in the file
//! reads as its name, and what a program uses stays.

use crate::evidence;
use crate::fit;
use crate::graph::Repository;
use crate::json;
use crate::json::JsonView;
use crate::operations;
use crate::operations::occurrences;
use crate::operations::organize_imports;
use crate::operations::organize_imports::{BindingView, MentionsView, StatementView};
use crate::operations::signature;
use crate::parse;
use crate::parse::Token;
use crate::plan;
use crate::plan::BuilderView;
use crate::text;
use vstd::prelude::*;
use vstd::string::*;

verus! {

/// Whether a token is an identifier that reads as a name.
pub open spec fn reads_as(source: Seq<char>, token: Token, name: Seq<char>) -> bool {
    token.kind is Identifier && parse::token_text(source, token) == name
}

/// Whether two different tokens of a file are identifiers that read as a name.
pub open spec fn named_twice(source: Seq<char>, tokens: Seq<Token>, name: Seq<char>) -> bool {
    exists|i: int, j: int|
        0 <= i < j < tokens.len() && reads_as(source, #[trigger] tokens[i], name) && reads_as(
            source,
            #[trigger] tokens[j],
            name,
        )
}

/// Whether a name stands as a word in the code inside a template token.
pub open spec fn named_in_template(source: Seq<char>, token: Token, name: Seq<char>) -> bool {
    let t = parse::token_text(source, token);
    &&& token.kind is Interpolation || (token.kind is String && text::begins(t, "`"@))
    &&& exists|k: int, start: int|
        0 <= k < occurrences::template_sections_from(text::bytes(t), 0, Seq::empty()).len()
            && text::sliceable(
            t,
            occurrences::template_sections_from(text::bytes(t), 0, Seq::empty())[k].0,
            occurrences::template_sections_from(text::bytes(t), 0, Seq::empty())[k].1,
        ) && #[trigger] occurrences::stands_at(
            text::slice(
                t,
                (#[trigger] occurrences::template_sections_from(
                    text::bytes(t),
                    0,
                    Seq::empty(),
                )[k]).0,
                occurrences::template_sections_from(text::bytes(t), 0, Seq::empty())[k].1,
            ),
            name,
            start,
        )
}

/// Whether some template of a file has a name as a word in its code.
pub open spec fn named_in_templates(source: Seq<char>, tokens: Seq<Token>, name: Seq<char>) -> bool {
    exists|i: int| 0 <= i < tokens.len() && named_in_template(source, #[trigger] tokens[i], name)
}

/// Counting a name over more of the same never comes to less.
proof fn lemma_times_grow(names: Seq<Seq<char>>, more: Seq<char>, name: Seq<char>)
    ensures
        organize_imports::times(names.push(more), name) == organize_imports::times(names, name) + if more
            == name {
            1nat
        } else {
            0
        },
{
    assert(names.push(more).drop_last() =~= names);
}

/// How often a file mentions a name is how many of its identifier tokens read as it.
pub proof fn law_mentions_count_every_identifier(
    source: Seq<char>,
    tokens: Seq<Token>,
    name: Seq<char>,
)
    ensures
        organize_imports::times(organize_imports::identifiers(source, tokens), name)
            == tokens.filter(|token: Token| reads_as(source, token, name)).len(),
        organize_imports::times(organize_imports::identifiers(source, tokens), name) >= 2
            <==> named_twice(source, tokens, name),
        organize_imports::times(organize_imports::identifiers(source, tokens), name) >= 1
            <==> exists|i: int|
            0 <= i < tokens.len() && reads_as(source, #[trigger] tokens[i], name),
    decreases tokens.len(),
{
    reveal(Seq::filter);
    if tokens.len() > 0 {
        let rest = tokens.drop_last();
        let last = tokens.last();
        let before = organize_imports::identifiers(source, rest);
        let end = tokens.len() - 1;
        law_mentions_count_every_identifier(source, rest, name);
        if last.kind is Identifier {
            lemma_times_grow(before, parse::token_text(source, last), name);
        }
        let count = organize_imports::times(organize_imports::identifiers(source, tokens), name);
        let earlier = organize_imports::times(before, name);
        if earlier >= 1 {
            let i = choose|i: int|
                0 <= i < rest.len() && reads_as(source, #[trigger] rest[i], name);
            assert(tokens[i] == rest[i]);
            if reads_as(source, last, name) {
                assert(reads_as(source, tokens[i], name) && reads_as(source, tokens[end], name));
            }
        }
        if reads_as(source, last, name) {
            assert(reads_as(source, tokens[end], name));
        }
        if named_twice(source, rest, name) {
            let (i, j) = choose|i: int, j: int|
                0 <= i < j < rest.len() && reads_as(source, #[trigger] rest[i], name) && reads_as(
                    source,
                    #[trigger] rest[j],
                    name,
                );
            assert(reads_as(source, tokens[i], name) && reads_as(source, tokens[j], name));
        }
        if named_twice(source, tokens, name) {
            let (i, j) = choose|i: int, j: int|
                0 <= i < j < tokens.len() && reads_as(source, #[trigger] tokens[i], name)
                    && reads_as(source, #[trigger] tokens[j], name);
            assert(reads_as(source, rest[i], name));
            if j < rest.len() {
                assert(reads_as(source, rest[j], name));
            }
        }
        if exists|i: int| 0 <= i < tokens.len() && reads_as(source, #[trigger] tokens[i], name) {
            let i = choose|i: int|
                0 <= i < tokens.len() && reads_as(source, #[trigger] tokens[i], name);
            if i < rest.len() {
                assert(reads_as(source, rest[i], name));
            }
        }
    }
}

/// Whether a name stands as a word in one of some texts.
spec fn worded(codes: Seq<Seq<char>>, name: Seq<char>) -> bool {
    exists|i: int, start: int|
        0 <= i < codes.len() && #[trigger] occurrences::stands_at(codes[i], name, start)
}

/// A name is found in code exactly where it stands there as a word.
proof fn lemma_interpolated(codes: Seq<Seq<char>>, name: Seq<char>)
    ensures
        organize_imports::interpolated(codes, name) <==> worded(codes, name),
{
    if organize_imports::interpolated(codes, name) {
        let i = choose|i: int|
            0 <= i < codes.len() && occurrences::words_from(
                #[trigger] codes[i],
                name,
                0,
                Seq::empty(),
            ).len() > 0;
        let found = occurrences::words_from(codes[i], name, 0, Seq::empty());
        assert(found.contains(found[0]));
        occurrences::law_words_are_found_where_they_stand(codes[i], name, found[0]);
        let start = choose|start: int|
            #[trigger] occurrences::stands_at(codes[i], name, start) && found[0]
                == occurrences::columns_at(name, start);
        assert(occurrences::stands_at(codes[i], name, start));
    }
    if worded(codes, name) {
        let (i, start) = choose|i: int, start: int|
            0 <= i < codes.len() && #[trigger] occurrences::stands_at(codes[i], name, start);
        let columns = occurrences::columns_at(name, start);
        occurrences::law_words_are_found_where_they_stand(codes[i], name, columns);
        assert(occurrences::words_from(codes[i], name, 0, Seq::empty()).contains(columns));
    }
}

/// Whether a text is one of the sections of another.
spec fn is_section(t: Seq<char>, sections: Seq<(int, int)>, one: Seq<char>, k: int) -> bool {
    0 <= k < sections.len() && text::sliceable(t, sections[k].0, sections[k].1) && one
        == text::slice(t, sections[k].0, sections[k].1)
}

/// The texts of sections are those of the sections that can be cut out.
proof fn lemma_section_texts(t: Seq<char>, sections: Seq<(int, int)>, one: Seq<char>)
    ensures
        organize_imports::section_texts(t, sections).contains(one) <==> exists|k: int| #[trigger]
            is_section(t, sections, one, k),
    decreases sections.len(),
{
    if sections.len() > 0 {
        let rest = sections.drop_last();
        let before = organize_imports::section_texts(t, rest);
        let all = organize_imports::section_texts(t, sections);
        lemma_section_texts(t, rest, one);
        if all.contains(one) {
            let i = choose|i: int| 0 <= i < all.len() && all[i] == one;
            if i < before.len() {
                assert(before[i] == one);
                let k = choose|k: int| #[trigger] is_section(t, rest, one, k);
                assert(is_section(t, sections, one, k));
            } else {
                assert(is_section(t, sections, one, sections.len() - 1));
            }
        }
        if exists|k: int| #[trigger] is_section(t, sections, one, k) {
            let k = choose|k: int| #[trigger] is_section(t, sections, one, k);
            if k < rest.len() {
                assert(is_section(t, rest, one, k));
                let i = choose|i: int| 0 <= i < before.len() && before[i] == one;
                assert(all[i] == one);
            } else {
                assert(all[before.len() as int] == one);
            }
        }
    }
}

/// A name stands in the code of a file's templates exactly where one of them has it.
proof fn lemma_templates(source: Seq<char>, tokens: Seq<Token>, name: Seq<char>)
    ensures
        worded(organize_imports::interpolations(source, tokens), name) <==> named_in_templates(
            source,
            tokens,
            name,
        ),
    decreases tokens.len(),
{
    if tokens.len() > 0 {
        let rest = tokens.drop_last();
        let token = tokens.last();
        let t = parse::token_text(source, token);
        let sections = occurrences::template_sections_from(text::bytes(t), 0, Seq::empty());
        let before = organize_imports::interpolations(source, rest);
        let all = organize_imports::interpolations(source, tokens);
        let own = organize_imports::section_texts(t, sections);
        lemma_templates(source, rest, name);
        if worded(all, name) {
            let (i, start) = choose|i: int, start: int|
                0 <= i < all.len() && #[trigger] occurrences::stands_at(all[i], name, start);
            if i < before.len() {
                assert(occurrences::stands_at(before[i], name, start));
                let k = choose|k: int|
                    0 <= k < rest.len() && named_in_template(source, #[trigger] rest[k], name);
                assert(tokens[k] == rest[k]);
            } else {
                let one = all[i];
                assert(own[i - before.len()] == one);
                lemma_section_texts(t, sections, one);
                let k = choose|k: int| #[trigger] is_section(t, sections, one, k);
                assert(occurrences::stands_at(
                    text::slice(t, sections[k].0, sections[k].1),
                    name,
                    start,
                ));
                assert(named_in_template(source, tokens[tokens.len() - 1], name));
            }
        }
        if named_in_templates(source, tokens, name) {
            let k = choose|k: int|
                0 <= k < tokens.len() && named_in_template(source, #[trigger] tokens[k], name);
            if k < rest.len() {
                assert(named_in_template(source, rest[k], name));
                let (i, start) = choose|i: int, start: int|
                    0 <= i < before.len() && #[trigger] occurrences::stands_at(
                        before[i],
                        name,
                        start,
                    );
                assert(occurrences::stands_at(all[i], name, start));
            } else {
                let (s, start) = choose|s: int, start: int|
                    0 <= s < sections.len() && text::sliceable(
                        t,
                        sections[s].0,
                        sections[s].1,
                    ) && #[trigger] occurrences::stands_at(
                        text::slice(t, (#[trigger] sections[s]).0, sections[s].1),
                        name,
                        start,
                    );
                let one = text::slice(t, sections[s].0, sections[s].1);
                assert(is_section(t, sections, one, s));
                lemma_section_texts(t, sections, one);
                let i = choose|i: int| 0 <= i < own.len() && own[i] == one;
                assert(all[before.len() + i] == one);
                assert(occurrences::stands_at(all[before.len() + i], name, start));
            }
        }
    }
}

/// A name counts as unused exactly where no two identifier tokens read as it and no template has it
/// in its code.
pub proof fn law_unused_is_named_once(source: Seq<char>, tokens: Seq<Token>, name: Seq<char>)
    ensures
        organize_imports::occurs_once(organize_imports::mentions(source, tokens), name)
            <==> !named_twice(source, tokens, name) && !named_in_templates(source, tokens, name),
{
    law_mentions_count_every_identifier(source, tokens, name);
    lemma_templates(source, tokens, name);
    lemma_interpolated(organize_imports::interpolations(source, tokens), name);
}

/// Whether an import statement binds a name.
pub open spec fn binds(statement: StatementView, name: Seq<char>) -> bool {
    exists|b: int| 0 <= b < statement.named.len() && (#[trigger] statement.named[b]).local == name
}

/// Whether one of some import statements binds a name.
pub open spec fn bound(statements: Seq<StatementView>, name: Seq<char>) -> bool {
    exists|s: int| 0 <= s < statements.len() && binds(#[trigger] statements[s], name)
}

/// Whether a statement that binds names has the braces it binds them in.
spec fn braced(statement: StatementView) -> bool {
    statement.named.len() > 0 ==> statement.braces is Some
}

/// Whether every statement that binds names has the braces it binds them in.
spec fn all_braced(statements: Seq<StatementView>) -> bool {
    forall|s: int| 0 <= s < statements.len() ==> braced(#[trigger] statements[s])
}

/// A statement keeps its braces while it is read.
proof fn lemma_bindings_braced(
    source: Seq<char>,
    code: Seq<Token>,
    at: int,
    statement: StatementView,
)
    requires
        braced(statement),
    ensures
        braced(organize_imports::bindings_from(source, code, at, statement).0),
    decreases code.len() - at,
{
    if 0 <= at < code.len() {
        let token = code[at];
        let t = parse::token_text(source, token);
        if t == "{"@ {
            let (named, after) = organize_imports::group_from(
                source,
                code,
                at + 1,
                Seq::empty(),
            );
            if !(after <= at || after > code.len()) {
                lemma_bindings_braced(
                    source,
                    code,
                    after,
                    StatementView {
                        named,
                        braces: Some((token.start, code[after - 1].end)),
                        ..statement
                    },
                );
            }
        } else if t == "from"@ || t == ";"@ {
        } else {
            let named = if token.kind is Identifier && t != "type"@ && t != "as"@ {
                statement.unnamed.push(t)
            } else {
                statement.unnamed
            };
            let unnamed = if t == "*"@ {
                named.push("*"@)
            } else {
                named
            };
            lemma_bindings_braced(source, code, at + 1, StatementView { unnamed, ..statement });
        }
    }
}

/// Every statement that is found has the braces it binds names in.
proof fn lemma_imports_braced(
    source: Seq<char>,
    code: Seq<Token>,
    at: int,
    found: Seq<StatementView>,
)
    requires
        all_braced(found),
    ensures
        all_braced(organize_imports::imports_from(source, code, at, found)),
    decreases code.len() - at,
{
    if 0 <= at < code.len() {
        if !organize_imports::starts_import(source, code, at) {
            lemma_imports_braced(source, code, at + 1, found);
        } else {
            let opened = StatementView {
                start: code[at].start,
                end: code[at].end,
                named: Seq::empty(),
                braces: None,
                unnamed: Seq::empty(),
            };
            let (statement, middle) = organize_imports::bindings_from(
                source,
                code,
                at + 1,
                opened,
            );
            let (end, after) = organize_imports::tail_from(source, code, middle, statement.end);
            lemma_bindings_braced(source, code, at + 1, opened);
            if !(after <= at || after > code.len()) {
                let next = found.push(StatementView { end, ..statement });
                assert forall|s: int| 0 <= s < next.len() implies braced(#[trigger] next[s]) by {
                    if s < found.len() {
                        assert(next[s] == found[s]);
                    }
                }
                lemma_imports_braced(source, code, after, next);
            }
        }
    }
}

/// The names whose flag is set are exactly those.
proof fn lemma_flagged(named: Seq<BindingView>, flags: Seq<bool>, name: Seq<char>)
    requires
        flags.len() == named.len(),
    ensures
        organize_imports::flagged(named, flags).contains(name) <==> exists|b: int|
            0 <= b < named.len() && flags[b] && (#[trigger] named[b]).local == name,
    decreases named.len(),
{
    if named.len() > 0 {
        let rest = named.drop_last();
        let before = organize_imports::flagged(rest, flags.drop_last());
        let all = organize_imports::flagged(named, flags);
        let last = named.len() - 1;
        lemma_flagged(rest, flags.drop_last(), name);
        if all.contains(name) {
            let i = choose|i: int| 0 <= i < all.len() && all[i] == name;
            if i < before.len() {
                assert(before[i] == name);
                let b = choose|b: int|
                    0 <= b < rest.len() && flags.drop_last()[b] && (#[trigger] rest[b]).local
                        == name;
                assert(named[b] == rest[b]);
            } else {
                assert(named[last].local == name);
            }
        }
        if exists|b: int| 0 <= b < named.len() && flags[b] && (#[trigger] named[b]).local == name {
            let b = choose|b: int|
                0 <= b < named.len() && flags[b] && (#[trigger] named[b]).local == name;
            if b < last {
                assert(rest[b] == named[b]);
                assert(before.contains(name));
                let i = choose|i: int| 0 <= i < before.len() && before[i] == name;
                assert(all[i] == name);
            } else {
                assert(all[before.len() as int] == name);
            }
        }
    }
}

/// The names that are removed are those that are bound and occur once.
proof fn lemma_removed(
    builder: BuilderView,
    source: Seq<char>,
    statements: Seq<StatementView>,
    mentioned: MentionsView,
    name: Seq<char>,
)
    requires
        all_braced(statements),
    ensures
        organize_imports::all_judged(builder, source, statements, mentioned).1.contains(name)
            <==> bound(statements, name) && organize_imports::occurs_once(mentioned, name),
    decreases statements.len(),
{
    if statements.len() > 0 {
        let rest = statements.drop_last();
        let last = statements.last();
        assert forall|s: int| 0 <= s < rest.len() implies braced(#[trigger] rest[s]) by {
            assert(rest[s] == statements[s]);
        }
        assert(braced(statements[statements.len() - 1]));
        lemma_removed(builder, source, rest, mentioned, name);
        let (before, removed) = organize_imports::all_judged(builder, source, rest, mentioned);
        let flags = organize_imports::unused_flags(last.named, mentioned);
        let gone = organize_imports::flagged(last.named, flags);
        lemma_flagged(last.named, flags, name);
        let all = organize_imports::all_judged(builder, source, statements, mentioned).1;
        assert(all == removed + gone);
        assert(all.contains(name) <==> removed.contains(name) || gone.contains(name)) by {
            if removed.contains(name) {
                let i = choose|i: int| 0 <= i < removed.len() && removed[i] == name;
                assert(all[i] == name);
            }
            if gone.contains(name) {
                let i = choose|i: int| 0 <= i < gone.len() && gone[i] == name;
                assert(all[removed.len() + i] == name);
            }
            if all.contains(name) {
                let i = choose|i: int| 0 <= i < all.len() && all[i] == name;
                if i < removed.len() {
                    assert(removed[i] == name);
                } else {
                    assert(gone[i - removed.len()] == name);
                }
            }
        }
        if bound(rest, name) {
            let s = choose|s: int| 0 <= s < rest.len() && binds(#[trigger] rest[s], name);
            assert(statements[s] == rest[s]);
        }
        if binds(last, name) {
            assert(binds(statements[statements.len() - 1], name));
        }
        if bound(statements, name) {
            let s = choose|s: int| 0 <= s < statements.len() && binds(#[trigger] statements[s], name);
            if s < rest.len() {
                assert(binds(rest[s], name));
            }
        }
        if gone.contains(name) {
            let b = choose|b: int|
                0 <= b < last.named.len() && flags[b] && (#[trigger] last.named[b]).local == name;
            assert(binds(last, name));
        }
        if binds(last, name) && organize_imports::occurs_once(mentioned, name) {
            let b = choose|b: int|
                0 <= b < last.named.len() && (#[trigger] last.named[b]).local == name;
            assert(flags[b]);
            assert(gone.contains(name));
        }
    }
}

/// Whether an answer says that a name is removed.
pub open spec fn removes(answer: JsonView, name: Seq<char>) -> bool {
    answer.list("removed"@) matches Some(removed) && removed.contains(JsonView::Text(name))
}

/// Whether a file is read for its imports: it can be read, is short enough, and is JavaScript or
/// TypeScript.
pub open spec fn organized(
    repository: Repository,
    arguments: JsonView,
    path: Seq<char>,
    source: Seq<char>,
    language: weavatrix_parse::Language,
) -> bool {
    &&& arguments.text("file"@) == Some(path)
    &&& evidence::source_of(repository.sources@, path) == Some(source)
    &&& text::bytes(source).len() <= 2097152
    &&& parse::path_language(path) == Some(language)
    &&& parse::name_of(language) == "JavaScript"@ || parse::name_of(language) == "TypeScript"@
}

/// The keys of an answer that are asked for are no others.
proof fn lemma_removed_key()
    ensures
        "status"@ != "removed"@ && "file"@ != "removed"@ && "reason"@ != "removed"@
            && "checkedBindings"@ != "removed"@ && "uncertain"@ != "removed"@ && "completeness"@
            != "removed"@ && "plan"@ != "removed"@ && "warnings"@ != "removed"@ && "next"@
            != "removed"@,
{
    reveal_strlit("status");
    reveal_strlit("file");
    reveal_strlit("reason");
    reveal_strlit("checkedBindings");
    reveal_strlit("uncertain");
    reveal_strlit("completeness");
    reveal_strlit("plan");
    reveal_strlit("warnings");
    reveal_strlit("next");
    reveal_strlit("removed");
    assert("status"@.len() == 6 && "file"@.len() == 4 && "reason"@.len() == 6
        && "checkedBindings"@.len() == 15 && "uncertain"@.len() == 9 && "completeness"@.len() == 12
        && "plan"@.len() == 4 && "warnings"@.len() == 8 && "next"@.len() == 4 && "removed"@.len()
        == 7);
}

/// A named binding is removed exactly where nothing else in the file reads as its name: where an
/// import of the file binds it, no two identifier tokens of the whole file read as it, and no
/// template has it in its code. An answer plans something exactly where there is such a binding.
pub proof fn law_a_binding_goes_exactly_where_its_name_stands_once(
    repository: Repository,
    arguments: JsonView,
    path: Seq<char>,
    source: Seq<char>,
    language: weavatrix_parse::Language,
    name: Seq<char>,
)
    requires
        organized(repository, arguments, path, source, language),
    ensures
        ({
            let answer = organize_imports::organize_imports_answer(repository, arguments);
            let tokens = parse::tokens_of(source, language);
            &&& removes(answer, name) <==> bound(
                organize_imports::imports_of(source, tokens),
                name,
            ) && !named_twice(source, tokens, name) && !named_in_templates(source, tokens, name)
            &&& removes(answer, name) ==> answer.text("status"@) == Some("PLANNED"@)
            &&& answer.text("status"@) == Some("PLANNED"@) || answer.text("status"@) == Some(
                "NO_UNUSED_IMPORTS"@,
            )
        }),
{
    broadcast use json::lemma_with_get;

    reveal(organize_imports::organize_imports_answer);
    lemma_removed_key();
    fit::lemma_plan_key();
    let answer = organize_imports::organize_imports_answer(repository, arguments);
    let tokens = parse::tokens_of(source, language);
    let statements = organize_imports::imports_of(source, tokens);
    let mentioned = organize_imports::mentions(source, tokens);
    let opened = BuilderView::start("organize_imports"@).file(path, plan::sha256_hex(source));
    lemma_imports_braced(source, signature::code_of(tokens), 0, Seq::empty());
    lemma_removed(opened, source, statements, mentioned, name);
    law_unused_is_named_once(source, tokens, name);
    let removed = organize_imports::all_judged(opened, source, statements, mentioned).1;
    let values = operations::texts(removed);
    assert(values.contains(JsonView::Text(name)) <==> removed.contains(name)) by {
        if removed.contains(name) {
            let i = choose|i: int| 0 <= i < removed.len() && removed[i] == name;
            assert(values[i] == JsonView::Text(name));
        }
        if values.contains(JsonView::Text(name)) {
            let i = choose|i: int| 0 <= i < values.len() && values[i] == JsonView::Text(name);
            assert(removed[i] == name);
        }
    }
    if statements.len() > 0 && removed.len() > 0 {
        assert(answer.list("removed"@) == Some(values));
    } else {
        assert(answer.list("removed"@) is None);
        if statements.len() == 0 {
            assert(!bound(statements, name));
        }
    }
}

} // verus!
