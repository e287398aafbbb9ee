//! JSON values: what an agent sends, and what it is answered.

use crate::text;
use vstd::prelude::*;
use vstd::string::*;

verus! {

/// A JSON value.
///
/// Only whole numbers that fit 64 bits are ever read or written here, so any other number keeps
/// its notation and reads as no number at all. The keys of an object are kept in order.
#[derive(Debug)]
pub enum Json {
    Null,
    Bool(bool),
    Number(u64),
    Notation(String),
    Text(String),
    List(Vec<Json>),
    Object(Vec<(String, Json)>),
}

/// A JSON value as a mathematical value.
#[verifier::ext_equal]
pub enum JsonView {
    Null,
    Bool(bool),
    Number(nat),
    Notation(Seq<char>),
    Text(Seq<char>),
    List(Seq<JsonView>),
    Object(Seq<(Seq<char>, JsonView)>),
}

/// The values of a list.
pub open spec fn list_view(values: Seq<Json>) -> Seq<JsonView>
    decreases values,
{
    if values.len() == 0 {
        Seq::empty()
    } else {
        list_view(values.drop_last()).push(values.last().view())
    }
}

/// The entries of an object.
pub open spec fn entries_view(entries: Seq<(String, Json)>) -> Seq<(Seq<char>, JsonView)>
    decreases entries,
{
    if entries.len() == 0 {
        Seq::empty()
    } else {
        entries_view(entries.drop_last()).push((entries.last().0@, entries.last().1.view()))
    }
}

impl Json {
    /// The value without its representation.
    pub open spec fn view(self) -> JsonView
        decreases self,
    {
        match self {
            Json::Null => JsonView::Null,
            Json::Bool(flag) => JsonView::Bool(flag),
            Json::Number(number) => JsonView::Number(number as nat),
            Json::Notation(notation) => JsonView::Notation(notation@),
            Json::Text(text) => JsonView::Text(text@),
            Json::List(values) => JsonView::List(list_view(values@)),
            Json::Object(entries) => JsonView::Object(entries_view(entries@)),
        }
    }
}

/// The values of a list stand where they stood.
pub proof fn lemma_list_view(values: Seq<Json>)
    ensures
        list_view(values).len() == values.len(),
        forall|i: int| 0 <= i < values.len() ==> #[trigger] list_view(values)[i] == values[i]@,
    decreases values.len(),
{
    if values.len() > 0 {
        lemma_list_view(values.drop_last());
    }
}

/// The entries of an object stand where they stood.
pub proof fn lemma_entries_view(entries: Seq<(String, Json)>)
    ensures
        entries_view(entries).len() == entries.len(),
        forall|i: int|
            0 <= i < entries.len() ==> #[trigger] entries_view(entries)[i] == (
                entries[i].0@,
                entries[i].1@,
            ),
    decreases entries.len(),
{
    if entries.len() > 0 {
        lemma_entries_view(entries.drop_last());
    }
}

/// The entry under a key, the first where a key is repeated.
pub open spec fn entry(entries: Seq<(Seq<char>, JsonView)>, key: Seq<char>) -> Option<JsonView>
    decreases entries.len(),
{
    if entries.len() == 0 {
        None
    } else if entries[0].0 == key {
        Some(entries[0].1)
    } else {
        entry(entries.drop_first(), key)
    }
}

impl JsonView {
    /// The value under a key, where this is an object that has one.
    pub open spec fn get(self, key: Seq<char>) -> Option<JsonView> {
        match self {
            JsonView::Object(entries) => entry(entries, key),
            _ => None,
        }
    }

    /// The text under a key, where this is an object that holds text there.
    pub open spec fn text(self, key: Seq<char>) -> Option<Seq<char>> {
        match self.get(key) {
            Some(JsonView::Text(text)) => Some(text),
            _ => None,
        }
    }

    /// The list under a key, where this is an object that holds a list there.
    pub open spec fn list(self, key: Seq<char>) -> Option<Seq<JsonView>> {
        match self.get(key) {
            Some(JsonView::List(values)) => Some(values),
            _ => None,
        }
    }

    /// The number under a key, where this is an object that holds one there.
    pub open spec fn number(self, key: Seq<char>) -> Option<nat> {
        match self.get(key) {
            Some(JsonView::Number(number)) => Some(number),
            _ => None,
        }
    }

    /// The flag under a key, where this is an object that holds one there.
    pub open spec fn flag(self, key: Seq<char>) -> Option<bool> {
        match self.get(key) {
            Some(JsonView::Bool(flag)) => Some(flag),
            _ => None,
        }
    }
}

impl JsonView {
    /// The object with nothing in it.
    pub open spec fn empty() -> JsonView {
        JsonView::Object(Seq::empty())
    }

    /// An object with one more entry.
    pub open spec fn with(self, key: Seq<char>, value: JsonView) -> JsonView {
        match self {
            JsonView::Object(entries) => JsonView::Object(entries.push((key, value))),
            _ => self,
        }
    }

    /// An object with one more entry that is text.
    pub open spec fn with_text(self, key: Seq<char>, value: Seq<char>) -> JsonView {
        self.with(key, JsonView::Text(value))
    }

    /// An object with one more entry that is a number.
    pub open spec fn with_number(self, key: Seq<char>, value: nat) -> JsonView {
        self.with(key, JsonView::Number(value))
    }

    /// An object with one more entry that is a list.
    pub open spec fn with_list(self, key: Seq<char>, values: Seq<JsonView>) -> JsonView {
        self.with(key, JsonView::List(values))
    }
}

/// Whether two optional values are both absent, or both present and the same.
pub open spec fn same_text(found: Option<&str>, expected: Option<Seq<char>>) -> bool {
    match (found, expected) {
        (Some(text), Some(chars)) => text@ == chars,
        (None, None) => true,
        _ => false,
    }
}

impl Json {
    /// The value under a key, where this is an object that has one.
    pub fn get<'a>(&'a self, key: &str) -> (found: Option<&'a Json>)
        ensures
            match (found, self@.get(key@)) {
                (Some(value), Some(expected)) => value@ == expected && decreases_to!(self => value),
                (None, None) => true,
                _ => false,
            },
    {
        match self {
            Json::Object(entries) => {
                let ghost all = entries_view(entries@);
                proof {
                    lemma_entries_view(entries@);
                    assert(all.skip(0) =~= all);
                }
                let mut i: usize = 0;
                while i < entries.len()
                    invariant
                        i <= entries.len(),
                        *self == Json::Object(*entries),
                        all == entries_view(entries@),
                        all.len() == entries@.len(),
                        forall|k: int|
                            0 <= k < entries@.len() ==> #[trigger] all[k] == (
                                entries@[k].0@,
                                entries@[k].1@,
                            ),
                        entry(all, key@) == entry(all.skip(i as int), key@),
                    decreases entries.len() - i,
                {
                    let pair = &entries[i];
                    if text::same(pair.0.as_str(), key) {
                        assert(all.skip(i as int)[0] == all[i as int]);
                        return Some(&pair.1);
                    }
                    assert(all.skip(i as int)[0] == all[i as int]);
                    assert(all.skip(i as int).drop_first() =~= all.skip(i + 1));
                    i += 1;
                }
                assert(all.skip(i as int).len() == 0);
                None
            },
            _ => None,
        }
    }
}

impl Json {
    /// The text this is, where it is text.
    pub fn as_str<'a>(&'a self) -> (found: Option<&'a str>)
        ensures
            same_text(
                found,
                match self@ {
                    JsonView::Text(text) => Some(text),
                    _ => None,
                },
            ),
    {
        match self {
            Json::Text(text) => Some(text.as_str()),
            _ => None,
        }
    }

    /// The values of the list this is, where it is a list.
    pub fn as_array<'a>(&'a self) -> (found: Option<&'a Vec<Json>>)
        ensures
            match (found, self@) {
                (Some(values), JsonView::List(expected)) => list_view(values@) == expected,
                (None, JsonView::List(_)) => false,
                (None, _) => true,
                _ => false,
            },
    {
        match self {
            Json::List(values) => Some(values),
            _ => None,
        }
    }

    /// The number this is, where it is a whole number that fits.
    pub fn as_u64(&self) -> (found: Option<u64>)
        ensures
            match (found, self@) {
                (Some(number), JsonView::Number(expected)) => number == expected,
                (None, JsonView::Number(_)) => false,
                (None, _) => true,
                _ => false,
            },
    {
        match self {
            Json::Number(number) => Some(*number),
            _ => None,
        }
    }

    /// The flag this is, where it is one.
    pub fn as_bool(&self) -> (found: Option<bool>)
        ensures
            found == (match self@ {
                JsonView::Bool(flag) => Some(flag),
                _ => None,
            }),
    {
        match self {
            Json::Bool(flag) => Some(*flag),
            _ => None,
        }
    }

    /// The text under a key.
    pub fn text<'a>(&'a self, key: &str) -> (found: Option<&'a str>)
        ensures
            same_text(found, self@.text(key@)),
    {
        match self.get(key) {
            Some(value) => value.as_str(),
            None => None,
        }
    }

    /// The list under a key.
    pub fn list<'a>(&'a self, key: &str) -> (found: Option<&'a Vec<Json>>)
        ensures
            match (found, self@.list(key@)) {
                (Some(values), Some(expected)) => list_view(values@) == expected,
                (None, None) => true,
                _ => false,
            },
    {
        match self.get(key) {
            Some(value) => value.as_array(),
            None => None,
        }
    }

    /// The number under a key.
    pub fn number(&self, key: &str) -> (found: Option<u64>)
        ensures
            match (found, self@.number(key@)) {
                (Some(number), Some(expected)) => number == expected,
                (None, None) => true,
                _ => false,
            },
    {
        match self.get(key) {
            Some(value) => value.as_u64(),
            None => None,
        }
    }

    /// The flag under a key.
    pub fn flag(&self, key: &str) -> (found: Option<bool>)
        ensures
            found == self@.flag(key@),
    {
        match self.get(key) {
            Some(value) => value.as_bool(),
            None => None,
        }
    }

    /// Another value that is the same.
    pub fn duplicate(&self) -> (copy: Json)
        ensures
            copy@ == self@,
        decreases self,
    {
        match self {
            Json::Null => Json::Null,
            Json::Bool(flag) => Json::Bool(*flag),
            Json::Number(number) => Json::Number(*number),
            Json::Notation(notation) => Json::Notation(notation.clone()),
            Json::Text(text) => Json::Text(text.clone()),
            Json::List(values) => {
                let mut out: Vec<Json> = Vec::new();
                let mut i: usize = 0;
                while i < values.len()
                    invariant
                        i <= values.len(),
                        *self == Json::List(*values),
                        list_view(out@) == list_view(values@.take(i as int)),
                    decreases values.len() - i,
                {
                    proof {
                        assert(decreases_to!(*self => self->List_0));
                        assert(decreases_to!(self->List_0 => self->List_0@));
                        assert(decreases_to!(values@ => values@[i as int]));
                    }
                    let copy = values[i].duplicate();
                    proof {
                        assert(values@.take(i + 1).drop_last() =~= values@.take(i as int));
                        assert(out@.push(copy).drop_last() =~= out@);
                    }
                    out.push(copy);
                    i += 1;
                }
                assert(values@.take(i as int) =~= values@);
                Json::List(out)
            },
            Json::Object(entries) => {
                let mut out: Vec<(String, Json)> = Vec::new();
                let mut i: usize = 0;
                while i < entries.len()
                    invariant
                        i <= entries.len(),
                        *self == Json::Object(*entries),
                        entries_view(out@) == entries_view(entries@.take(i as int)),
                    decreases entries.len() - i,
                {
                    let pair = &entries[i];
                    proof {
                        assert(decreases_to!(*self => self->Object_0));
                        assert(decreases_to!(self->Object_0 => self->Object_0@));
                        assert(decreases_to!(entries@ => entries@[i as int]));
                        assert(decreases_to!(entries@[i as int] => entries@[i as int].1));
                    }
                    let copy = (pair.0.clone(), pair.1.duplicate());
                    proof {
                        assert(entries@.take(i + 1).drop_last() =~= entries@.take(i as int));
                        assert(out@.push(copy).drop_last() =~= out@);
                    }
                    out.push(copy);
                    i += 1;
                }
                assert(entries@.take(i as int) =~= entries@);
                Json::Object(out)
            },
        }
    }
}

/// Text as a value.
pub fn string(text: &str) -> (value: Json)
    ensures
        value@ == JsonView::Text(text@),
{
    Json::Text(text.to_owned())
}

/// A list under construction.
pub struct Items {
    values: Vec<Json>,
}

impl Items {
    /// The values so far.
    pub closed spec fn view(self) -> Seq<JsonView> {
        list_view(self.values@)
    }

    /// A list with nothing in it.
    pub fn new() -> (items: Items)
        ensures
            items@ == Seq::<JsonView>::empty(),
    {
        Items { values: Vec::new() }
    }

    /// Appends one value.
    pub fn push(&mut self, value: Json)
        ensures
            final(self)@ == old(self)@.push(value@),
    {
        proof {
            assert(self.values@.push(value).drop_last() =~= self.values@);
        }
        self.values.push(value);
    }

    /// Whether nothing was appended.
    pub fn is_empty(&self) -> (empty: bool)
        ensures
            empty == (self@.len() == 0),
    {
        proof {
            lemma_list_view(self.values@);
        }
        self.values.len() == 0
    }

    /// How many values were appended.
    pub fn len(&self) -> (length: usize)
        ensures
            length == self@.len(),
    {
        proof {
            lemma_list_view(self.values@);
        }
        self.values.len()
    }

    /// Appends every value of another list.
    pub fn extend(&mut self, other: Items)
        ensures
            final(self)@ == old(self)@ + other@,
    {
        let ghost start = self@;
        let ghost all = other.values@;
        let mut i: usize = 0;
        while i < other.values.len()
            invariant
                i <= other.values@.len(),
                other.values@ == all,
                self@ == start + list_view(all.take(i as int)),
            decreases other.values@.len() - i,
        {
            let copy = other.values[i].duplicate();
            proof {
                assert(all.take(i + 1).drop_last() =~= all.take(i as int));
                assert(start + list_view(all.take(i + 1)) =~= (start + list_view(
                    all.take(i as int),
                )).push(copy@));
            }
            self.push(copy);
            i += 1;
        }
        assert(all.take(i as int) =~= all);
    }

    /// The finished list.
    pub fn done(self) -> (value: Json)
        ensures
            value@ == JsonView::List(self@),
    {
        Json::List(self.values)
    }

    /// Another list with the same values.
    pub fn duplicate(&self) -> (copy: Items)
        ensures
            copy@ == self@,
    {
        let mut out = Items::new();
        let mut i: usize = 0;
        while i < self.values.len()
            invariant
                i <= self.values@.len(),
                out@ == list_view(self.values@.take(i as int)),
            decreases self.values@.len() - i,
        {
            let copy = self.values[i].duplicate();
            proof {
                assert(self.values@.take(i + 1).drop_last() =~= self.values@.take(i as int));
            }
            out.push(copy);
            i += 1;
        }
        assert(self.values@.take(i as int) =~= self.values@);
        out
    }
}

/// An object under construction.
pub struct Fields {
    entries: Vec<(String, Json)>,
}

impl Fields {
    /// The object so far.
    pub closed spec fn view(self) -> JsonView {
        JsonView::Object(entries_view(self.entries@))
    }

    /// An object with nothing in it.
    pub fn new() -> (fields: Fields)
        ensures
            fields@ == JsonView::empty(),
    {
        Fields { entries: Vec::new() }
    }

    /// Appends one entry.
    pub fn with(self, key: &str, value: Json) -> (fields: Fields)
        ensures
            fields@ == self@.with(key@, value@),
    {
        let mut entries = self.entries;
        let ghost before = entries@;
        let pair = (key.to_owned(), value);
        proof {
            assert(before.push(pair).drop_last() =~= before);
        }
        entries.push(pair);
        Fields { entries }
    }

    /// Appends one entry that is text.
    pub fn with_text(self, key: &str, value: &str) -> (fields: Fields)
        ensures
            fields@ == self@.with_text(key@, value@),
    {
        self.with(key, string(value))
    }

    /// Appends one entry that is a number.
    pub fn with_number(self, key: &str, value: u64) -> (fields: Fields)
        ensures
            fields@ == self@.with_number(key@, value as nat),
    {
        self.with(key, Json::Number(value))
    }

    /// Appends one entry that is a list.
    pub fn with_list(self, key: &str, values: Items) -> (fields: Fields)
        ensures
            fields@ == self@.with_list(key@, values@),
    {
        self.with(key, values.done())
    }

    /// The finished object.
    pub fn done(self) -> (value: Json)
        ensures
            value@ == self@,
    {
        Json::Object(self.entries)
    }
}

/// What an object with one more entry holds: what it held, or else the new entry under its key.
pub broadcast proof fn lemma_with_get(object: JsonView, key: Seq<char>, value: JsonView, query: Seq<char>)
    requires
        object is Object,
    ensures
        #[trigger] object.with(key, value).get(query) == (if object.get(query) is Some {
            object.get(query)
        } else if key == query {
            Some(value)
        } else {
            None
        }),
{
    lemma_entry_push(object->Object_0, key, value, query);
}

/// What entries with one more among them hold under a key.
proof fn lemma_entry_push(
    entries: Seq<(Seq<char>, JsonView)>,
    key: Seq<char>,
    value: JsonView,
    query: Seq<char>,
)
    ensures
        entry(entries.push((key, value)), query) == (if entry(entries, query) is Some {
            entry(entries, query)
        } else if key == query {
            Some(value)
        } else {
            None
        }),
    decreases entries.len(),
{
    let pushed = entries.push((key, value));
    if entries.len() == 0 {
        assert(pushed[0] == (key, value));
        assert(pushed.drop_first() =~= Seq::empty());
        assert(entry(pushed.drop_first(), query) is None);
    } else {
        lemma_entry_push(entries.drop_first(), key, value, query);
        assert(pushed[0] == entries[0]);
        assert(pushed.drop_first() =~= entries.drop_first().push((key, value)));
    }
}

} // verus!
