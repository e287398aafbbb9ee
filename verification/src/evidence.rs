//! Risk signals that make an absence of references unprovable.
//!
//! None of these say a symbol *is* used. They say the graph cannot see whether it is: dynamic
//! dispatch, reflection, a framework entry point, a public surface with consumers outside this
//! repository. Reporting them by name is the difference between "unproven" and a bare "no".

use crate::graph::{Node, SourceFile};
use crate::json;
use crate::json::{Fields, Items, Json, JsonView};
use crate::text;
use vstd::prelude::*;
use vstd::string::*;

verus! {

/// Bytes of a source file that are ever read. A declaration that lives in a file larger than this
/// is a review problem of its own; refusing to read it is safer than a partial scan that silently
/// misses the pattern it was looking for.
pub const MAX_SOURCE_BYTES: usize = 4_194_304;

/// The text of the first file with a path, where it is not too large to be read.
pub open spec fn source_of(sources: Seq<SourceFile>, path: Seq<char>) -> Option<Seq<char>>
    decreases sources.len(),
{
    if sources.len() == 0 {
        None
    } else if sources[0].path@ == path {
        if text::bytes(sources[0].text@).len() <= MAX_SOURCE_BYTES {
            Some(sources[0].text@)
        } else {
            None
        }
    } else {
        source_of(sources.drop_first(), path)
    }
}

/// Reads a source file, or `None` when it is missing or too large.
///
/// A caller that gets `None` must report the risk as unchecked rather than as absent.
pub fn read_source<'a>(sources: &'a Vec<SourceFile>, file: &str) -> (found: Option<&'a str>)
    ensures
        json::same_text(found, source_of(sources@, file@)),
        found matches Some(source) ==> text::bytes(source@).len() <= MAX_SOURCE_BYTES,
{
    let mut i: usize = 0;
    assert(sources@.skip(0) =~= sources@);
    while i < sources.len()
        invariant
            i <= sources@.len(),
            source_of(sources@, file@) == source_of(sources@.skip(i as int), file@),
        decreases sources@.len() - i,
    {
        proof {
            assert(sources@.skip(i as int)[0] == sources@[i as int]);
            assert(sources@.skip(i as int).drop_first() =~= sources@.skip(i + 1));
        }
        if text::same(sources[i].path.as_str(), file) {
            let source = sources[i].text.as_str();
            if source.as_bytes().len() <= MAX_SOURCE_BYTES {
                return Some(source);
            }
            return None;
        }
        i += 1;
    }
    assert(sources@.skip(i as int).len() == 0);
    None
}

/// The repository-relative file a node was declared in.
pub open spec fn file_of(node: Node) -> Option<Seq<char>> {
    match node.span {
        Some(span) => Some(span.file@),
        None => None,
    }
}

/// The repository-relative file a node was declared in.
pub fn declaring_file<'a>(node: &'a Node) -> (file: Option<&'a str>)
    ensures
        json::same_text(file, file_of(*node)),
{
    match &node.span {
        Some(span) => Some(span.file.as_str()),
        None => None,
    }
}

/// Whether a text loads code by name at run time.
pub open spec fn loads_dynamically(t: Seq<char>) -> bool {
    text::holds(t, "require("@) || text::holds(t, "import("@) || text::holds(t, "eval("@)
        || text::holds(t, "Function("@) || text::holds(t, "libloading"@) || text::holds(
        t,
        "dlopen"@,
    )
}

/// Whether a text reaches members by reflection.
pub open spec fn reflects(t: Seq<char>) -> bool {
    text::holds(t, "Reflect."@) || text::holds(t, "getattr("@) || text::holds(t, "__getattr__"@)
        || text::holds(t, "std::any::"@) || text::holds(t, "TypeId::of"@) || text::holds(
        t,
        "Any>::downcast"@,
    )
}

/// Whether a declaration can have consumers outside its repository.
pub open spec fn public(node: Node) -> bool {
    node.kind@ == "file"@ || node.exported
}

/// What a scan of a source says of a pattern.
pub open spec fn observed(unread: bool, present: bool) -> Seq<char> {
    if unread {
        "NOT_CHECKED_SOURCE_UNAVAILABLE"@
    } else if present {
        "PRESENT"@
    } else {
        "NOT_OBSERVED_IN_DECLARING_FILE"@
    }
}

/// One named signal, what the scan found, and whether it stops a proof.
#[verifier::ext_equal]
pub struct SignalView {
    pub signal: Seq<char>,
    pub status: Seq<char>,
    pub blocking: bool,
}

/// The signals of a declaration, in the order they are reported.
pub open spec fn signals(node: Node, source: Option<Seq<char>>) -> Seq<SignalView> {
    let unread = source is None;
    let dynamic = source matches Some(t) && loads_dynamically(t);
    let reflection = source matches Some(t) && reflects(t);
    seq![
        SignalView {
            signal: "EXTERNAL_CONSUMERS"@,
            status: if public(node) {
                "NOT_POSSIBLE_FROM_REPOSITORY_GRAPH"@
            } else {
                "NOT_APPLICABLE_INTERNAL"@
            },
            blocking: public(node),
        },
        SignalView {
            signal: "DYNAMIC_LOADING"@,
            status: observed(unread, dynamic),
            blocking: unread || dynamic,
        },
        SignalView {
            signal: "REFLECTION"@,
            status: observed(unread, reflection),
            blocking: unread || reflection,
        },
        SignalView {
            signal: "EXACT_REFERENCES"@,
            status: "NOT_SUPPORTED_BY_NATIVE_ENGINE"@,
            blocking: true,
        },
    ]
}

/// The names of the signals that stop a proof.
pub open spec fn blocking_names(all: Seq<SignalView>) -> Seq<Seq<char>>
    decreases all.len(),
{
    if all.len() == 0 {
        Seq::empty()
    } else if all.last().blocking {
        blocking_names(all.drop_last()).push(all.last().signal)
    } else {
        blocking_names(all.drop_last())
    }
}

/// One signal as it is reported.
pub open spec fn signal_value(signal: SignalView) -> JsonView {
    JsonView::empty().with_text("signal"@, signal.signal).with_text("status"@, signal.status)
}

/// Every signal as it is reported.
pub open spec fn reported(all: Seq<SignalView>) -> Seq<JsonView> {
    Seq::new(all.len(), |i: int| signal_value(all[i]))
}

/// One named signal and what the scan found.
pub struct RiskSignal {
    pub signal: &'static str,
    pub status: &'static str,
    blocking: bool,
}

impl RiskSignal {
    /// The signal without its representation.
    pub closed spec fn view(self) -> SignalView {
        SignalView { signal: self.signal@, status: self.status@, blocking: self.blocking }
    }
}

/// The risk assessment for one declaration.
pub struct Risk(Vec<RiskSignal>);

impl Risk {
    /// The signals of the assessment.
    pub closed spec fn view(self) -> Seq<SignalView> {
        Seq::new(self.0@.len(), |i: int| self.0@[i].view())
    }

    /// Assesses a declaration against its own source, when the source could be read.
    pub fn assess(node: &Node, source: Option<&str>) -> (risk: Risk)
        ensures
            risk@ == signals(*node, match source {
                Some(t) => Some(t@),
                None => None,
            }),
    {
        let exposed = text::same(node.kind.as_str(), "file") || node.exported;
        let unread = source.is_none();
        let dynamic = match source {
            Some(t) => text::contains(t, "require(") || text::contains(t, "import(")
                || text::contains(t, "eval(") || text::contains(t, "Function(") || text::contains(
                t,
                "libloading",
            ) || text::contains(t, "dlopen"),
            None => false,
        };
        let reflection = match source {
            Some(t) => text::contains(t, "Reflect.") || text::contains(t, "getattr(")
                || text::contains(t, "__getattr__") || text::contains(t, "std::any::")
                || text::contains(t, "TypeId::of") || text::contains(t, "Any>::downcast"),
            None => false,
        };
        let mut all: Vec<RiskSignal> = Vec::new();
        all.push(
            RiskSignal {
                signal: "EXTERNAL_CONSUMERS",
                status: if exposed {
                    "NOT_POSSIBLE_FROM_REPOSITORY_GRAPH"
                } else {
                    "NOT_APPLICABLE_INTERNAL"
                },
                blocking: exposed,
            },
        );
        all.push(
            RiskSignal {
                signal: "DYNAMIC_LOADING",
                status: status_for(unread, dynamic),
                blocking: unread || dynamic,
            },
        );
        all.push(
            RiskSignal {
                signal: "REFLECTION",
                status: status_for(unread, reflection),
                blocking: unread || reflection,
            },
        );
        // No exact reference backend exists, so nothing may claim the zero-reference proof that
        // would make a deletion safe.
        all.push(
            RiskSignal {
                signal: "EXACT_REFERENCES",
                status: "NOT_SUPPORTED_BY_NATIVE_ENGINE",
                blocking: true,
            },
        );
        Risk(all)
    }

    /// Signal names that stop this from being a proof.
    pub fn blocking(&self) -> (names: Vec<&'static str>)
        ensures
            text::views(names@) == blocking_names(self@),
    {
        let mut names: Vec<&'static str> = Vec::new();
        let mut i: usize = 0;
        assert(text::views(names@) =~= Seq::empty());
        while i < self.0.len()
            invariant
                i <= self.0@.len(),
                text::views(names@) == blocking_names(self@.take(i as int)),
            decreases self.0@.len() - i,
        {
            assert(self@.take(i + 1).drop_last() =~= self@.take(i as int));
            if self.0[i].blocking {
                let name = self.0[i].signal;
                assert(text::views(names@.push(name)) =~= text::views(names@).push(name@));
                names.push(name);
            }
            i += 1;
        }
        assert(self@.take(i as int) =~= self@);
        names
    }

    /// The full assessment, reported whatever the verdict.
    pub fn report(&self) -> (value: Json)
        ensures
            value@ == JsonView::List(reported(self@)),
    {
        let mut items = Items::new();
        let mut i: usize = 0;
        while i < self.0.len()
            invariant
                i <= self.0@.len(),
                items@ =~= reported(self@).take(i as int),
            decreases self.0@.len() - i,
        {
            let value = Fields::new().with_text("signal", self.0[i].signal).with_text(
                "status",
                self.0[i].status,
            ).done();
            assert(value@ == signal_value(self@[i as int]));
            items.push(value);
            i += 1;
        }
        assert(items@ =~= reported(self@));
        items.done()
    }
}

/// What a scan of a source says of a pattern.
pub fn status_for(unread: bool, present: bool) -> (status: &'static str)
    ensures
        status@ == observed(unread, present),
{
    if unread {
        "NOT_CHECKED_SOURCE_UNAVAILABLE"
    } else if present {
        "PRESENT"
    } else {
        "NOT_OBSERVED_IN_DECLARING_FILE"
    }
}

/// A missing exact backend always stops the proof, whatever else was found.
pub proof fn law_exact_references_always_block(node: Node, source: Option<Seq<char>>)
    ensures
        blocking_names(signals(node, source)).contains("EXACT_REFERENCES"@),
        signals(node, source).len() == 4,
{
    let all = signals(node, source);
    assert(all.last().signal == "EXACT_REFERENCES"@);
    let names = blocking_names(all);
    assert(names[names.len() - 1] == "EXACT_REFERENCES"@);
}

/// A source that could not be read leaves both scans unchecked, and both stop the proof.
pub proof fn law_unread_is_unchecked_not_absent(node: Node)
    ensures
        signals(node, None)[1].status == "NOT_CHECKED_SOURCE_UNAVAILABLE"@,
        signals(node, None)[2].status == "NOT_CHECKED_SOURCE_UNAVAILABLE"@,
        blocking_names(signals(node, None)).contains("DYNAMIC_LOADING"@),
        blocking_names(signals(node, None)).contains("REFLECTION"@),
{
    let all = signals(node, None);
    let two = all.take(2);
    let three = all.take(3);
    assert(all.drop_last() =~= three);
    assert(three.drop_last() =~= two);
    let a = blocking_names(two);
    let b = blocking_names(three);
    let c = blocking_names(all);
    assert(a[a.len() - 1] == "DYNAMIC_LOADING"@);
    assert(b =~= a.push("REFLECTION"@));
    assert(c =~= b.push("EXACT_REFERENCES"@));
    assert(c[a.len() - 1] == "DYNAMIC_LOADING"@);
    assert(c[b.len() - 1] == "REFLECTION"@);
}

} // verus!
