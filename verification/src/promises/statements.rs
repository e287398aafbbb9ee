//! What finding the import statements of a source promises: where they begin, how far they go, and
//! where they end.

use crate::operations::references;
use crate::text;
use crate::words;
use vstd::prelude::*;
use vstd::string::*;

verus! {

/// Whether a line is white space and then a text.
pub open spec fn opens_with(line: Seq<char>, head: Seq<char>) -> bool {
    exists|space: Seq<char>, rest: Seq<char>|
        line == #[trigger] (space + (head + rest)) && (forall|i: int|
            0 <= i < space.len() ==> words::whitespace(#[trigger] space[i]))
}

/// White space before a text that has none is what is trimmed.
proof fn lemma_space_goes(space: Seq<char>, rest: Seq<char>)
    requires
        rest.len() > 0,
        !words::whitespace(rest[0]),
        forall|i: int| 0 <= i < space.len() ==> words::whitespace(#[trigger] space[i]),
    ensures
        words::trimmed_start(space + rest) == rest,
    decreases space.len(),
{
    if space.len() > 0 {
        let less = space.drop_first();
        assert(words::whitespace(space[0]));
        assert forall|i: int| 0 <= i < less.len() implies words::whitespace(
            #[trigger] less[i],
        ) by {
            assert(less[i] == space[i + 1]);
        }
        lemma_space_goes(less, rest);
        assert((space + rest).drop_first() =~= less + rest);
    } else {
        assert(space + rest =~= rest);
    }
}

/// What is trimmed opens with what is left.
proof fn lemma_opens(line: Seq<char>, head: Seq<char>)
    requires
        text::begins(words::trimmed_start(line), head),
    ensures
        opens_with(line, head),
    decreases line.len(),
{
    if line.len() > 0 && words::whitespace(line[0]) {
        lemma_opens(line.drop_first(), head);
        let (space, rest) = choose|space: Seq<char>, rest: Seq<char>|
            line.drop_first() == #[trigger] (space + (head + rest)) && (forall|i: int|
                0 <= i < space.len() ==> words::whitespace(#[trigger] space[i]));
        let more = seq![line[0]] + space;
        let all = more + (head + rest);
        assert(line.drop_first().len() == (space + (head + rest)).len());
        assert forall|i: int| 0 <= i < line.len() implies line[i] == all[i] by {
            if i > 0 {
                assert(line.drop_first()[i - 1] == (space + (head + rest))[i - 1]);
            }
        }
        assert(line =~= all);
    } else {
        let space = Seq::<char>::empty();
        let rest = line.skip(head.len() as int);
        assert(line =~= space + (head + rest));
    }
}

/// Whether a line opens with a word that begins an import statement.
pub open spec fn opens_statement(line: Seq<char>) -> bool {
    opens_with(line, "import "@) || opens_with(line, "use "@) || opens_with(line, "pub use "@)
        || opens_with(line, "from "@) || opens_with(line, "export "@)
}

/// A statement that was opened is one that begins.
proof fn lemma_begins(line: Seq<char>, head: Seq<char>)
    requires
        opens_with(line, head),
        head.len() > 0,
        !words::whitespace(head[0]),
    ensures
        text::begins(words::trimmed_start(line), head),
{
    let (space, rest) = choose|space: Seq<char>, rest: Seq<char>|
        line == #[trigger] (space + (head + rest)) && (forall|i: int|
            0 <= i < space.len() ==> words::whitespace(#[trigger] space[i]));
    lemma_space_goes(space, head + rest);
    assert((head + rest).take(head.len() as int) =~= head);
}

/// Whether none of the letters that begin an import statement is white space.
pub open spec fn letters() -> bool {
    !words::whitespace('i') && !words::whitespace('u') && !words::whitespace('p')
        && !words::whitespace('f') && !words::whitespace('e')
}

/// An import statement begins exactly on the lines that open with its word: `import`, `use`, `pub
/// use`, `from` or `export`, whatever white space is before it.
pub proof fn law_a_statement_begins_with_its_word(all: Seq<Seq<char>>, at: int)
    requires
        letters(),
        0 <= at < all.len(),
    ensures
        references::imports(all[at]) == opens_statement(all[at]),
        opens_statement(all[at]) ==> references::in_statement(all, at),
{
    let line = all[at];
    reveal_strlit("import ");
    reveal_strlit("use ");
    reveal_strlit("pub use ");
    reveal_strlit("from ");
    reveal_strlit("export ");
    let head = words::trimmed_start(line);
    if text::begins(head, "import "@) {
        lemma_opens(line, "import "@);
    }
    if text::begins(head, "use "@) {
        lemma_opens(line, "use "@);
    }
    if text::begins(head, "pub use "@) {
        lemma_opens(line, "pub use "@);
    }
    if text::begins(head, "from "@) {
        lemma_opens(line, "from "@);
    }
    if text::begins(head, "export "@) {
        lemma_opens(line, "export "@);
    }
    if opens_with(line, "import "@) {
        lemma_begins(line, "import "@);
    }
    if opens_with(line, "use "@) {
        lemma_begins(line, "use "@);
    }
    if opens_with(line, "pub use "@) {
        lemma_begins(line, "pub use "@);
    }
    if opens_with(line, "from "@) {
        lemma_begins(line, "from "@);
    }
    if opens_with(line, "export "@) {
        lemma_begins(line, "export "@);
    }
}

/// Whether a character opens a group of an import statement.
pub open spec fn opens_group(c: char) -> bool {
    c == '{' || c == '('
}

/// Whether a text closes no group, and ends no statement.
pub open spec fn stays(t: Seq<char>) -> bool {
    forall|i: int| 0 <= i < t.len() ==> #[trigger] t[i] != ';' && t[i] != '}' && t[i] != ')'
}

/// Whether a text opens a group before any quote or comment.
pub open spec fn opens_early(t: Seq<char>, at: int) -> bool {
    &&& 0 <= at < t.len()
    &&& opens_group(t[at])
    &&& forall|i: int|
        0 <= i < at ==> #[trigger] t[i] != '\'' && t[i] != '"' && t[i] != '`' && t[i] != '/' && t[i]
            != '#'
}

/// What closes nothing leaves a group open, where one is open or is opened early.
proof fn lemma_left_open(t: Seq<char>, depth: nat, at: int)
    requires
        stays(t),
        depth > 0 || opens_early(t, at),
    ensures
        references::left_open(t, depth) matches Some(open) && open > 0,
    decreases t.len(),
{
    if t.len() > 0 {
        let rest = t.drop_first();
        assert(t[0] != ';' && t[0] != '}' && t[0] != ')');
        assert(stays(rest)) by {
            assert forall|i: int| 0 <= i < rest.len() implies #[trigger] rest[i] != ';' && rest[i]
                != '}' && rest[i] != ')' by {
                assert(rest[i] == t[i + 1]);
            }
        }
        if opens_group(t[0]) {
            lemma_left_open(rest, depth + 1, 0);
        } else if depth > 0 {
            lemma_left_open(rest, depth, 0);
        } else {
            assert(t[0] != '\'');
            assert(at > 0);
            assert(rest[at - 1] == t[at]);
            assert forall|i: int| 0 <= i < at - 1 implies #[trigger] rest[i] != '\'' && rest[i]
                != '"' && rest[i] != '`' && rest[i] != '/' && rest[i] != '#' by {
                assert(rest[i] == t[i + 1]);
            }
            lemma_left_open(rest, depth, at - 1);
        }
    }
}

/// A group that is open stays open over lines that close none.
proof fn lemma_goes_on(all: Seq<Seq<char>>, from: int, to: int)
    requires
        0 <= from <= to <= all.len(),
        references::statement_behind(all, from) matches Some(open) && open > 0,
        forall|k: int|
            from <= k < to ==> stays(#[trigger] all[k]) && !references::imports(all[k]),
    ensures
        references::statement_behind(all, to) matches Some(open) && open > 0,
    decreases to - from,
{
    if from < to {
        assert(stays(all[from]) && !references::imports(all[from]));
        lemma_left_open(all[from], references::statement_behind(all, from)->0, 0);
        lemma_goes_on(all, from + 1, to);
    }
}

/// An import statement goes on until its group closes: where a line that opens with `import`,
/// `use`, `pub use` or `from` opens a group, before any quote or comment, and closes none, every
/// line behind it is part of the statement, up to and with the first one that closes a group or
/// ends a statement.
pub proof fn law_a_statement_goes_on_while_its_group_is_open(
    all: Seq<Seq<char>>,
    from: int,
    to: int,
    group: int,
)
    requires
        letters(),
        0 <= from < to < all.len(),
        opens_with(all[from], "import "@) || opens_with(all[from], "use "@) || opens_with(
            all[from],
            "pub use "@,
        ) || opens_with(all[from], "from "@),
        opens_early(all[from], group),
        stays(all[from]),
        forall|k: int| from < k < to ==> stays(#[trigger] all[k]) && !opens_statement(all[k]),
    ensures
        references::in_statement(all, to),
{
    law_a_statement_begins_with_its_word(all, from);
    let line = all[from];
    assert(references::may_go_on(line)) by {
        reveal_strlit("import ");
        reveal_strlit("use ");
        reveal_strlit("pub use ");
        reveal_strlit("from ");
        reveal_strlit("export ");
        let head = words::trimmed_start(line);
        if opens_with(line, "import "@) {
            lemma_begins(line, "import "@);
            assert(head.take(7)[0] == 'i');
        } else if opens_with(line, "use "@) {
            lemma_begins(line, "use "@);
            assert(head.take(4)[0] == 'u');
        } else if opens_with(line, "pub use "@) {
            lemma_begins(line, "pub use "@);
            assert(head.take(8)[0] == 'p');
        } else {
            lemma_begins(line, "from "@);
            assert(head.take(5)[0] == 'f');
        }
        if text::begins(head, "export "@) {
            assert(head.take(7)[0] == 'e');
        }
    }
    lemma_left_open(line, 0, group);
    assert(references::statement_behind(all, from + 1) is Some);
    assert forall|k: int| from + 1 <= k < to implies stays(#[trigger] all[k])
        && !references::imports(all[k]) by {
        law_a_statement_begins_with_its_word(all, k);
    }
    lemma_goes_on(all, from + 1, to);
}

/// A line with a semicolon leaves nothing open.
proof fn lemma_ended(t: Seq<char>, depth: nat)
    requires
        t.contains(';'),
    ensures
        references::left_open(t, depth) is None,
    decreases t.len(),
{
    let i = choose|i: int| 0 <= i < t.len() && t[i] == ';';
    if i > 0 {
        let rest = t.drop_first();
        assert(rest[i - 1] == ';');
        lemma_ended(rest, depth);
        lemma_ended(rest, depth + 1);
        if depth > 0 {
            lemma_ended(rest, (depth - 1) as nat);
        }
    }
}

/// An import statement ends with its semicolon: behind a line that holds one, a line is part of a
/// statement only where it begins one.
pub proof fn law_a_statement_ends_with_its_semicolon(all: Seq<Seq<char>>, at: int)
    requires
        letters(),
        0 <= at < all.len() - 1,
        all[at].contains(';'),
    ensures
        references::in_statement(all, at + 1) == opens_statement(all[at + 1]),
{
    law_a_statement_begins_with_its_word(all, at + 1);
    lemma_ended(all[at], 0);
    if references::statement_behind(all, at) is Some {
        lemma_ended(all[at], references::statement_behind(all, at)->0);
    }
}

/// A line is no part of an import statement where it does not begin one and the line before it is
/// part of none.
pub proof fn law_a_statement_begins_nowhere_else(all: Seq<Seq<char>>, at: int)
    requires
        letters(),
        0 < at < all.len(),
        !references::in_statement(all, at - 1),
        !opens_statement(all[at]),
    ensures
        !references::in_statement(all, at),
{
    law_a_statement_begins_with_its_word(all, at);
}

} // verus!
