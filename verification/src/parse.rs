//! What the parser is asked: tokens, declarations and imports of one source file.

use crate::text;
use vstd::prelude::*;
use weavatrix_parse::TokenKind as Outside;

verus! {

/// A language the parser reads; opaque here.
#[verifier::external_type_specification]
#[verifier::external_body]
pub struct ExLanguage(weavatrix_parse::Language);

/// What a token is, as far as the planners tell tokens apart.
#[derive(Debug, Clone, Copy, PartialEq, Eq, Structural)]
pub enum TokenKind {
    Whitespace,
    Newline,
    Indent,
    LineComment,
    BlockComment,
    /// String, character, template or raw-string literal, quotes and all.
    String,
    /// Interpolated section of a template literal, `${` and `}` and all.
    Interpolation,
    Identifier,
    Regex,
    /// A block comment or string that the file ends inside.
    Unterminated,
    /// A kind that no rule here singles out: a number, or punctuation.
    Other,
}

/// One lexical unit: its byte range in the source and the line of its first byte.
#[derive(Debug, Clone, Copy, PartialEq, Eq, Structural)]
pub struct Token {
    pub kind: TokenKind,
    pub start: usize,
    pub end: usize,
    pub line: u32,
}

/// A declaration: its name, and where its signature stands.
pub struct Declaration {
    pub name: String,
    pub start: usize,
    pub end: usize,
    pub line: u32,
}

/// An import: the specifier as written, and where its statement stands.
pub struct Import {
    pub specifier: String,
    pub start: usize,
    pub end: usize,
}

/// The declarations and the imports of one source file.
pub struct Facts {
    pub declarations: Vec<Declaration>,
    pub imports: Vec<Import>,
}

/// A declaration as a mathematical value.
pub struct DeclarationView {
    pub name: Seq<char>,
    pub start: usize,
    pub end: usize,
    pub line: u32,
}

/// An import as a mathematical value.
pub struct ImportView {
    pub specifier: Seq<char>,
    pub start: usize,
    pub end: usize,
}

impl Declaration {
    /// The declaration without its representation.
    pub open spec fn view(self) -> DeclarationView {
        DeclarationView {
            name: self.name@,
            start: self.start,
            end: self.end,
            line: self.line,
        }
    }
}

impl Import {
    /// The import without its representation.
    pub open spec fn view(self) -> ImportView {
        ImportView {
            specifier: self.specifier@,
            start: self.start,
            end: self.end,
        }
    }
}

/// The declarations and the imports of one source file, as mathematical values.
pub struct FactsView {
    pub declarations: Seq<DeclarationView>,
    pub imports: Seq<ImportView>,
}

impl Facts {
    /// The facts without their representation.
    pub open spec fn view(self) -> FactsView {
        FactsView {
            declarations: Seq::new(
                self.declarations@.len(),
                |i: int| self.declarations@[i].view(),
            ),
            imports: Seq::new(self.imports@.len(), |i: int| self.imports@[i].view()),
        }
    }
}

/// The language that a file extension selects.
pub uninterp spec fn language_of(extension: Seq<char>) -> Option<weavatrix_parse::Language>;

/// `weavatrix_parse::Language::from_extension`: a function of the extension alone.
pub assume_specification[ weavatrix_parse::Language::from_extension ](extension: &str) -> (found:
    Option<weavatrix_parse::Language>)
    ensures
        found == language_of(extension@),
;

/// The name of a language, such as `JavaScript`.
pub uninterp spec fn name_of(language: weavatrix_parse::Language) -> Seq<char>;

/// The `Debug` text of a `weavatrix_parse::Language`: the name of its variant.
#[verifier::external_body]
pub(crate) fn language_name(language: weavatrix_parse::Language) -> (name: String)
    ensures
        name@ == name_of(language),
{
    format!("{language:?}")
}

/// The tokens of a source in a language.
pub uninterp spec fn tokens_of(source: Seq<char>, language: weavatrix_parse::Language) -> Seq<Token>;

/// `weavatrix_parse::tokenize`: a function of the source and the language, each token with its
/// kind, its byte range and its line. Lines and columns are counted in 32 bits, so a source has to
/// be short enough for both. How deep templates may nest before the stack is used up is left
/// unsaid.
#[verifier::external_body]
pub(crate) fn tokenize(source: &str, language: weavatrix_parse::Language) -> (tokens: Vec<Token>)
    requires
        text::bytes(source@).len() < u32::MAX,
    ensures
        tokens@ == tokens_of(source@, language),
{
    let kind = |kind: Outside| match kind {
        Outside::Whitespace => TokenKind::Whitespace, Outside::Newline => TokenKind::Newline,
        Outside::Indent => TokenKind::Indent, Outside::LineComment => TokenKind::LineComment,
        Outside::BlockComment => TokenKind::BlockComment, Outside::String => TokenKind::String,
        Outside::Interpolation => TokenKind::Interpolation, Outside::Regex => TokenKind::Regex,
        Outside::Identifier => TokenKind::Identifier,
        Outside::Unterminated => TokenKind::Unterminated, _ => TokenKind::Other,
    };
    weavatrix_parse::tokenize(source, language)
        .iter()
        .map(|token| Token { kind: kind(token.kind), start: token.start, end: token.end, line: token.line })
        .collect()
}

/// The text of a token, empty where its range is none of the source.
pub open spec fn token_text(source: Seq<char>, token: Token) -> Seq<char> {
    if text::sliceable(source, token.start as int, token.end as int) {
        text::slice(source, token.start as int, token.end as int)
    } else {
        Seq::empty()
    }
}

impl Token {
    /// The text of this token.
    pub fn text<'a>(&self, source: &'a str) -> (found: &'a str)
        ensures
            found@ == token_text(source@, *self),
    {
        match text::get(source, self.start, self.end) {
            Some(found) => found,
            None => {
                proof {
                    reveal_strlit("");
                }
                ""
            },
        }
    }

    /// Whether this token reads as a given text.
    pub fn reads(&self, source: &str, expected: &str) -> (found: bool)
        ensures
            found == (token_text(source@, *self) == expected@),
    {
        text::same(self.text(source), expected)
    }
}

/// The language that the extension of a path selects.
pub open spec fn path_language(path: Seq<char>) -> Option<weavatrix_parse::Language> {
    match text::rsplit(path, '.') {
        Some((_, extension)) => language_of(extension),
        None => None,
    }
}

/// The language that the extension of a path selects.
pub fn language_at(path: &str) -> (found: Option<weavatrix_parse::Language>)
    ensures
        found == path_language(path@),
{
    match text::rsplit_once(path, 46) {
        Some((_, extension)) => weavatrix_parse::Language::from_extension(extension),
        None => None,
    }
}

/// Whether a token carries no program meaning.
pub open spec fn trivia(token: Token) -> bool {
    token.kind == TokenKind::Whitespace || token.kind == TokenKind::Newline || token.kind
        == TokenKind::Indent || token.kind == TokenKind::LineComment || token.kind
        == TokenKind::BlockComment
}

/// Where the first token of program meaning stands, from a place on.
pub open spec fn code_from(tokens: Seq<Token>, at: int) -> Option<int>
    decreases tokens.len() - at,
{
    if at < 0 || at >= tokens.len() {
        None
    } else if trivia(tokens[at]) {
        code_from(tokens, at + 1)
    } else {
        Some(at)
    }
}

/// Whether the first two tokens of program meaning are a name and an opening parenthesis.
pub open spec fn name_then_list(source: Seq<char>, tokens: Seq<Token>) -> bool {
    match code_from(tokens, 0) {
        Some(first) => tokens[first].kind == TokenKind::Identifier && (match code_from(
            tokens,
            first + 1,
        ) {
            Some(second) => token_text(source, tokens[second]) == "("@,
            None => false,
        }),
        None => false,
    }
}

/// Whether a file is C or C++ and its source opens with a name and a parenthesis, with no return
/// type before them.
pub open spec fn opens_with_call(path: Seq<char>, source: Seq<char>) -> bool {
    match path_language(path) {
        Some(language) => (name_of(language) == "C"@ || name_of(language) == "Cpp"@)
            && name_then_list(source, tokens_of(source, language)),
        None => false,
    }
}

/// Finds the first token of program meaning, from a place on.
fn find_code(tokens: &Vec<Token>, from: usize) -> (found: Option<usize>)
    requires
        from <= tokens@.len(),
    ensures
        match (found, code_from(tokens@, from as int)) {
            (Some(at), Some(expected)) => at == expected && at < tokens@.len(),
            (None, None) => true,
            _ => false,
        },
{
    let mut at: usize = from;
    while at < tokens.len()
        invariant
            from <= at <= tokens@.len(),
            code_from(tokens@, from as int) == code_from(tokens@, at as int),
        decreases tokens@.len() - at,
    {
        let skipped = match tokens[at].kind {
            TokenKind::Whitespace | TokenKind::Newline | TokenKind::Indent => true,
            TokenKind::LineComment | TokenKind::BlockComment => true,
            _ => false,
        };
        if !skipped {
            return Some(at);
        }
        at += 1;
    }
    None
}

/// Whether the first two tokens of program meaning are a name and an opening parenthesis.
fn is_name_then_list(source: &str, tokens: &Vec<Token>) -> (found: bool)
    ensures
        found == name_then_list(source@, tokens@),
{
    let count: usize = tokens.len();
    match find_code(tokens, 0) {
        Some(first) => {
            assert(first < count);
            if tokens[first].kind != TokenKind::Identifier {
                return false;
            }
            match find_code(tokens, first + 1) {
                Some(second) => tokens[second].reads(source, "("),
                None => false,
            }
        },
        None => false,
    }
}

/// Whether a file is C or C++ and its source opens with a name and a parenthesis.
fn is_opened_with_call(path: &str, source: &str) -> (found: bool)
    requires
        text::bytes(source@).len() < u32::MAX,
    ensures
        found == opens_with_call(path@, source@),
{
    match language_at(path) {
        Some(language) => {
            let name = language_name(language);
            (text::same(name.as_str(), "C") || text::same(name.as_str(), "Cpp"))
                && is_name_then_list(source, &tokenize(source, language))
        },
        None => false,
    }
}

/// The declarations and the imports that a file of a given path and source has, where the path
/// selects a language.
pub uninterp spec fn facts_of(path: Seq<char>, source: Seq<char>) -> Option<FactsView>;

/// `weavatrix_parse::extract_path`: a function of the path and the source, each declaration with
/// its name and span, each import with its specifier and span.
///
/// It looks one token back from a name before a parenthesis to tell a C function from a call, also
/// where there is no token before that name, so a source that opens this way is left out. Nesting
/// is counted in 32 bits with a sign, which bounds the length of a source. How deep a source may
/// nest before the stack is used up is left unsaid.
#[verifier::external_body]
pub(crate) fn extract_path(path: &str, source: &str) -> (facts: Option<Facts>)
    requires
        !opens_with_call(path@, source@),
        text::bytes(source@).len() < i32::MAX,
    ensures
        match (facts, facts_of(path@, source@)) {
            (Some(found), Some(expected)) => found@ == expected,
            (None, None) => true,
            _ => false,
        },
{
    weavatrix_parse::extract_path(path, source).map(|facts| Facts {
        declarations: facts.declarations.into_iter().map(|found| Declaration {
            name: found.name, start: found.span.start, end: found.span.end, line: found.span.line,
        }).collect(),
        imports: facts.imports.into_iter().map(|found| Import {
            specifier: found.specifier, start: found.span.start, end: found.span.end,
        }).collect(),
    })
}

/// The declarations and the imports of a file that the parser can be asked for.
pub open spec fn known_facts(path: Seq<char>, source: Seq<char>) -> Option<FactsView> {
    if opens_with_call(path, source) {
        None
    } else {
        facts_of(path, source)
    }
}

/// Reads the declarations and the imports of a file. There are none to be had where the path
/// selects no language, nor of a C or C++ source that opens with a call.
pub fn read_facts(path: &str, source: &str) -> (facts: Option<Facts>)
    requires
        text::bytes(source@).len() < i32::MAX,
    ensures
        match (facts, known_facts(path@, source@)) {
            (Some(found), Some(expected)) => found@ == expected,
            (None, None) => true,
            _ => false,
        },
{
    if is_opened_with_call(path, source) {
        None
    } else {
        extract_path(path, source)
    }
}

} // verus!
