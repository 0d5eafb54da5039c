//! What methods report for the events that fired them.

use vstd::prelude::*;
use vstd::std_specs::convert::FromSpecImpl;

use crate::table::{distinct, index_of_key, lemma_index_of_key, lemma_index_unique, lemma_map_insert};
use crate::table::{lemma_map_update, map_of};
use crate::text;
use crate::text::{decimal, text_before, texts_are_ordered};
use crate::time::Timestamp;
use crate::trigger::TriggerEvent;
use crate::text::{all_digits, digits_value};

verus! {

/// The types a field of a result can have.
#[derive(Debug, Clone, Copy, PartialEq, Eq, Structural)]
pub enum FieldType {
    Bool,
    Integer,
    Float,
    String,
}

/// One value in a result.
#[derive(Debug, PartialEq, Eq)]
pub enum FieldValue {
    Bool(bool),
    Integer(i64),
    /// A double-precision number, by its bits.
    Float(u64),
    String(String),
}

/// What a [`FieldValue`] holds.
pub ghost enum ValueView {
    Bool(bool),
    Integer(i64),
    /// By its bits.
    Float(u64),
    String(Seq<char>),
}

impl View for FieldValue {
    type V = ValueView;

    open spec fn view(&self) -> ValueView {
        match self {
            FieldValue::Bool(value) => ValueView::Bool(*value),
            FieldValue::Integer(value) => ValueView::Integer(*value),
            FieldValue::Float(bits) => ValueView::Float(*bits),
            FieldValue::String(value) => ValueView::String(value@),
        }
    }
}

impl ValueView {
    pub open spec fn type_of(self) -> FieldType {
        match self {
            ValueView::Bool(_) => FieldType::Bool,
            ValueView::Integer(_) => FieldType::Integer,
            ValueView::Float(_) => FieldType::Float,
            ValueView::String(_) => FieldType::String,
        }
    }

    /// The value as it is shown; how a floating-point number is shown is left open.
    pub open spec fn shown(self) -> Option<Seq<char>> {
        match self {
            ValueView::Bool(value) => Some(
                if value {
                    "true"@
                } else {
                    "false"@
                },
            ),
            ValueView::Integer(value) => Some(signed_text(value)),
            ValueView::Float(_) => None,
            ValueView::String(value) => Some(value),
        }
    }
}

impl FieldValue {
    pub fn field_type(&self) -> (r: FieldType)
        ensures
            r == self@.type_of(),
    {
        match self {
            FieldValue::Bool(_) => FieldType::Bool,
            FieldValue::Integer(_) => FieldType::Integer,
            FieldValue::Float(_) => FieldType::Float,
            FieldValue::String(_) => FieldType::String,
        }
    }
}

/// An integer in decimal, with a minus sign where it is negative.
pub open spec fn signed_text(value: i64) -> Seq<char> {
    if value < 0 {
        "-"@ + decimal((-value) as nat)
    } else {
        decimal(value as nat)
    }
}

impl FieldValue {
    /// Writes the value; `None` for a floating-point number.
    pub fn display(&self) -> (r: Option<String>)
        ensures
            match r {
                Some(s) => self@.shown() == Some(s@),
                None => self@.shown() is None,
            },
    {
        match self {
            FieldValue::Bool(value) => Some(
                text::copy_of(
                    if *value {
                        "true"
                    } else {
                        "false"
                    },
                ),
            ),
            FieldValue::Integer(value) => {
                if *value < 0 {
                    let mut out = text::copy_of("-");
                    let magnitude: u64 = (-(*value as i128)) as u64;
                    text::push_decimal(&mut out, magnitude);
                    Some(out)
                } else {
                    Some(text::decimal_string(*value as u64))
                }
            },
            FieldValue::Float(_) => None,
            FieldValue::String(value) => Some(text::copy_of(value.as_str())),
        }
    }
}

impl From<bool> for FieldValue {
    fn from(value: bool) -> (r: Self) {
        FieldValue::Bool(value)
    }
}

impl FromSpecImpl<bool> for FieldValue {
    open spec fn obeys_from_spec() -> bool {
        true
    }

    open spec fn from_spec(value: bool) -> FieldValue {
        FieldValue::Bool(value)
    }
}

impl From<i64> for FieldValue {
    fn from(value: i64) -> (r: Self) {
        FieldValue::Integer(value)
    }
}

impl FromSpecImpl<i64> for FieldValue {
    open spec fn obeys_from_spec() -> bool {
        true
    }

    open spec fn from_spec(value: i64) -> FieldValue {
        FieldValue::Integer(value)
    }
}

impl From<String> for FieldValue {
    fn from(value: String) -> (r: Self) {
        FieldValue::String(value)
    }
}

impl FromSpecImpl<String> for FieldValue {
    open spec fn obeys_from_spec() -> bool {
        true
    }

    open spec fn from_spec(value: String) -> FieldValue {
        FieldValue::String(value)
    }
}

impl From<&str> for FieldValue {
    fn from(value: &str) -> (r: Self)
        ensures
            r@ == ValueView::String(value@),
    {
        FieldValue::String(text::copy_of(value))
    }
}

impl FromSpecImpl<&str> for FieldValue {
    open spec fn obeys_from_spec() -> bool {
        false
    }

    open spec fn from_spec(value: &str) -> FieldValue {
        arbitrary()
    }
}

impl Clone for FieldValue {
    fn clone(&self) -> (r: Self)
        ensures
            r == *self,
    {
        match self {
            FieldValue::Bool(value) => FieldValue::Bool(*value),
            FieldValue::Integer(value) => FieldValue::Integer(*value),
            FieldValue::Float(bits) => FieldValue::Float(*bits),
            FieldValue::String(value) => FieldValue::String(value.clone()),
        }
    }
}

/// What one method reports for one trigger: field names, each with its value, in the
/// order of the names. No name occurs twice.
#[derive(Debug, PartialEq, Eq)]
pub struct Fields {
    entries: Vec<(String, FieldValue)>,
}

/// Names and values.
spec fn field_views(entries: Seq<(String, FieldValue)>) -> Seq<(Seq<char>, ValueView)> {
    Seq::new(entries.len(), |i: int| (entries[i].0@, entries[i].1@))
}

/// Each name comes before those behind it.
spec fn in_name_order(entries: Seq<(String, FieldValue)>) -> bool {
    forall|i: int, j: int|
        0 <= i < j < entries.len() ==> text_before(
            (#[trigger] entries[i]).0@,
            (#[trigger] entries[j]).0@,
        )
}

proof fn lemma_names_distinct(entries: Seq<(String, FieldValue)>)
    requires
        in_name_order(entries),
    ensures
        distinct(field_views(entries)),
{
    let views = field_views(entries);
    assert forall|i: int, j: int| 0 <= i < j < views.len() implies (#[trigger] views[i]).0 != (
    #[trigger] views[j]).0 by {
        texts_are_ordered(entries[i].0@, entries[j].0@, entries[i].0@);
        assert(text_before(entries[i].0@, entries[j].0@));
    }
}

impl View for Fields {
    type V = Map<Seq<char>, ValueView>;

    closed spec fn view(&self) -> Map<Seq<char>, ValueView> {
        map_of(field_views(self.entries@))
    }
}

/// Finds the place of a name: where it stands, or where it would have to stand.
fn place_of(entries: &Vec<(String, FieldValue)>, name: &str) -> (r: (usize, bool))
    requires
        in_name_order(entries@),
    ensures
        r.0 <= entries@.len(),
        r.1 ==> r.0 < entries@.len() && entries@[r.0 as int].0@ == name@,
        !r.1 ==> forall|j: int|
            r.0 <= j < entries@.len() ==> text_before(name@, (#[trigger] entries@[j]).0@),
        forall|j: int| 0 <= j < r.0 ==> text_before((#[trigger] entries@[j]).0@, name@),
{
    let mut i: usize = 0;
    while i < entries.len() && text::text_is_before(entries[i].0.as_str(), name)
        invariant
            i <= entries@.len(),
            forall|j: int| 0 <= j < i ==> text_before((#[trigger] entries@[j]).0@, name@),
        decreases entries@.len() - i,
    {
        i = i + 1;
    }
    if i < entries.len() {
        if text::same_str(entries[i].0.as_str(), name) {
            return (i, true);
        }
        proof {
            texts_are_ordered(entries@[i as int].0@, name@, name@);
            assert forall|j: int| i <= j < entries@.len() implies text_before(
                name@,
                (#[trigger] entries@[j]).0@,
            ) by {
                if j > i {
                    assert(text_before(entries@[i as int].0@, entries@[j].0@));
                    texts_are_ordered(name@, entries@[i as int].0@, entries@[j].0@);
                }
            }
        }
    }
    (i, false)
}

impl Fields {
    #[verifier::type_invariant]
    spec fn ordered(self) -> bool {
        in_name_order(self.entries@)
    }

    pub fn new() -> (r: Self)
        ensures
            r@ == Map::<Seq<char>, ValueView>::empty(),
    {
        Fields { entries: Vec::new() }
    }

    /// The value of the field `name`.
    pub fn get(&self, name: &str) -> (r: Option<&FieldValue>)
        ensures
            match r {
                Some(value) => self@.contains_key(name@) && self@[name@] == value@,
                None => !self@.contains_key(name@),
            },
    {
        proof {
            use_type_invariant(self);
            lemma_names_distinct(self.entries@);
            lemma_index_of_key(field_views(self.entries@), name@);
        }
        let (i, found) = place_of(&self.entries, name);
        let ghost views = field_views(self.entries@);
        if found {
            proof {
                assert(views[i as int].0 == name@);
                lemma_index_unique(views, i as int);
            }
            Some(&self.entries[i].1)
        } else {
            proof {
                if let Some(j) = index_of_key(views, name@) {
                    let at = self.entries@[j].0@;
                    assert(at == name@);
                    texts_are_ordered(at, at, at);
                    if j < i {
                        assert(text_before(self.entries@[j].0@, name@));
                    } else {
                        assert(text_before(name@, self.entries@[j].0@));
                    }
                }
            }
            None
        }
    }

    /// Sets the field `name`.
    pub fn insert(&mut self, name: String, value: FieldValue)
        ensures
            final(self)@ == old(self)@.insert(name@, value@),
    {
        proof {
            use_type_invariant(&*self);
            lemma_names_distinct(self.entries@);
        }
        let mut entries: Vec<(String, FieldValue)> = Vec::new();
        std::mem::swap(&mut entries, &mut self.entries);
        let ghost given = entries@;
        let ghost views = field_views(given);
        let (i, found) = place_of(&entries, name.as_str());
        let ghost entry = (name, value);
        if found {
            entries.set(i, (name, value));
            proof {
                assert(views[i as int].0 == name@);
                lemma_map_update(views, i as int, value@);
                assert(field_views(entries@) =~= views.update(i as int, (name@, value@)));
                assert forall|a: int, b: int| 0 <= a < b < entries@.len() implies text_before(
                    (#[trigger] entries@[a]).0@,
                    (#[trigger] entries@[b]).0@,
                ) by {
                    assert(text_before(given[a].0@, given[b].0@));
                }
            }
        } else {
            entries.insert(i, (name, value));
            proof {
                assert forall|j: int| 0 <= j < views.len() implies (#[trigger] views[j]).0
                    != name@ by {
                    texts_are_ordered(name@, name@, name@);
                    if j < i {
                        assert(text_before(given[j].0@, name@));
                    } else {
                        assert(text_before(name@, given[j].0@));
                    }
                }
                lemma_map_insert(views, i as int, name@, value@);
                assert(field_views(entries@) =~= views.insert(i as int, (name@, value@)));
                assert forall|a: int, b: int| 0 <= a < b < entries@.len() implies text_before(
                    (#[trigger] entries@[a]).0@,
                    (#[trigger] entries@[b]).0@,
                ) by {
                    if a == i {
                        assert(entries@[b] == given[b - 1]);
                    } else if b == i {
                        assert(entries@[a] == given[a]);
                    } else {
                        let a0 = if a < i {
                            a
                        } else {
                            a - 1
                        };
                        let b0 = if b < i {
                            b
                        } else {
                            b - 1
                        };
                        assert(text_before(given[a0].0@, given[b0].0@));
                    }
                }
            }
        }
        self.entries = entries;
    }
}

/// A field that a method may report, and its type.
#[derive(Debug)]
pub struct FieldDeclaration {
    pub field: String,
    pub field_type: FieldType,
}

/// Whether a declaration is that of a field, with the type that the field has.
pub open spec fn declares_field(
    declaration: FieldDeclaration,
    name: Seq<char>,
    value: ValueView,
) -> bool {
    declaration.field@ == name && declaration.field_type == value.type_of()
}

/// Whether a field is declared, with the type that it has.
pub open spec fn is_declared(
    schema: Seq<FieldDeclaration>,
    name: Seq<char>,
    value: ValueView,
) -> bool {
    exists|i: int| 0 <= i < schema.len() && #[trigger] declares_field(schema[i], name, value)
}

/// The fields that are declared, with the types that they have.
pub open spec fn declared_only(
    schema: Seq<FieldDeclaration>,
    fields: Map<Seq<char>, ValueView>,
) -> Map<Seq<char>, ValueView> {
    fields.restrict(fields.dom().filter(|name: Seq<char>| is_declared(schema, name, fields[name])))
}

fn find_declaration(schema: &Vec<FieldDeclaration>, name: &str, value: &FieldValue) -> (r: bool)
    ensures
        r == is_declared(schema@, name@, value@),
{
    let mut i: usize = 0;
    while i < schema.len()
        invariant
            i <= schema@.len(),
            forall|j: int| 0 <= j < i ==> !#[trigger] declares_field(schema@[j], name@, value@),
        decreases schema@.len() - i,
    {
        if text::same_str(schema[i].field.as_str(), name) && schema[i].field_type
            == value.field_type() {
            assert(declares_field(schema@[i as int], name@, value@));
            return true;
        }
        i = i + 1;
    }
    false
}

impl Fields {
    /// Drops every field that is not declared with the type that it has.
    pub fn declared_in(self, schema: &Vec<FieldDeclaration>) -> (r: Self)
        ensures
            r@ == declared_only(schema@, self@),
    {
        let ghost given = self.entries@;
        proof {
            use_type_invariant(&self);
            lemma_names_distinct(given);
        }
        let mut out: Vec<(String, FieldValue)> = Vec::new();
        assert(field_views(out@) =~= Seq::empty());
        assert(field_views(given.take(0)) =~= Seq::empty());
        assert(map_of(field_views(out@)) =~= declared_only(
            schema@,
            map_of(field_views(given.take(0))),
        ));
        for entry in it: self.entries.into_iter()
            invariant
                it.seq() == given,
                in_name_order(given),
                distinct(field_views(given)),
                in_name_order(out@),
                forall|j: int|
                    0 <= j < out@.len() ==> given.take(it.index() as int).contains(
                        #[trigger] out@[j],
                    ),
                map_of(field_views(out@)) == declared_only(
                    schema@,
                    map_of(field_views(given.take(it.index() as int))),
                ),
        {
            let ghost k = it.index() as int;
            let ghost kept = out@;
            let ghost (name, value) = (entry.0@, entry.1@);
            let ghost seen = field_views(given.take(k));
            let ghost fields = map_of(seen);
            proof {
                assert(given.take(k + 1) =~= given.take(k).push(entry));
                assert(field_views(given.take(k + 1)) =~= seen.push((name, value)));
                assert(seen.push((name, value)).drop_last() =~= seen);
                assert(!fields.contains_key(name)) by {
                    assert(in_name_order(given.take(k)));
                    lemma_names_distinct(given.take(k));
                    lemma_index_of_key(seen, name);
                    if let Some(i) = index_of_key(seen, name) {
                        assert(field_views(given)[i].0 != field_views(given)[k].0);
                    }
                }
                assert forall|j: int| 0 <= j < kept.len() implies given.take(k + 1).contains(
                    #[trigger] kept[j],
                ) && text_before(kept[j].0@, name) by {
                    assert(given.take(k).contains(kept[j]));
                    let i = choose|i: int| 0 <= i < k && given.take(k)[i] == kept[j];
                    assert(given.take(k + 1)[i] == kept[j]);
                    assert(text_before(given[i].0@, given[k].0@));
                }
                assert(given.take(k + 1)[k] == entry);
            }
            if find_declaration(schema, entry.0.as_str(), &entry.1) {
                out.push(entry);
                proof {
                    assert(field_views(out@) =~= field_views(kept).push((name, value)));
                    assert(field_views(out@).drop_last() =~= field_views(kept));
                }
            }
            assert(map_of(field_views(out@)) =~= declared_only(
                schema@,
                fields.insert(name, value),
            ));
        }
        assert(given.take(given.len() as int) =~= given);
        Fields { entries: out }
    }
}

impl Clone for Fields {
    fn clone(&self) -> (r: Self)
        ensures
            r@ == self@,
    {
        proof {
            use_type_invariant(self);
        }
        let mut entries: Vec<(String, FieldValue)> = Vec::new();
        let mut i: usize = 0;
        while i < self.entries.len()
            invariant
                i <= self.entries@.len(),
                entries@ == self.entries@.take(i as int),
            decreases self.entries@.len() - i,
        {
            entries.push((self.entries[i].0.clone(), self.entries[i].1.clone()));
            i = i + 1;
        }
        assert(entries@ =~= self.entries@);
        Fields { entries }
    }
}

/// One entry in a session's append-only result list.
///
/// Never edited once appended, and never merged with another method's entry:
/// when two methods disagree, both entries stand.
#[derive(Debug, PartialEq, Eq)]
pub struct ResultEntry {
    /// Producing method's name.
    pub method: String,
    /// The event that fired it.
    pub trigger: TriggerEvent,
    /// Capture time of the packet that fired it, or of the session's last
    /// packet for a session event.
    pub timestamp: Timestamp,
    pub fields: Fields,
}

/// What a [`ResultEntry`] holds.
pub ghost struct ResultView {
    pub method: Seq<char>,
    pub trigger: TriggerEvent,
    pub timestamp: Timestamp,
    pub fields: Map<Seq<char>, ValueView>,
}

impl View for ResultEntry {
    type V = ResultView;

    open spec fn view(&self) -> ResultView {
        ResultView {
            method: self.method@,
            trigger: self.trigger,
            timestamp: self.timestamp,
            fields: self.fields@,
        }
    }
}

impl Clone for ResultEntry {
    fn clone(&self) -> (r: Self)
        ensures
            r@ == self@,
    {
        ResultEntry {
            method: self.method.clone(),
            trigger: self.trigger,
            timestamp: self.timestamp,
            fields: self.fields.clone(),
        }
    }
}

/// An integer is written as its size in digits, behind a minus sign where it is
/// negative.
pub proof fn integers_are_written_with_their_sign(value: i64)
    ensures
        value < 0 ==> signed_text(value)[0] == '-' && digits_value(signed_text(value).skip(1))
            == -value && all_digits(signed_text(value).skip(1)),
        value >= 0 ==> digits_value(signed_text(value)) == value && all_digits(signed_text(value)),
        ValueView::Integer(value).shown() == Some(signed_text(value)),
{
    reveal_strlit("-");
    let size = if value < 0 {
        (-value) as nat
    } else {
        value as nat
    };
    text::decimal_reads_back(size);
    if value < 0 {
        assert(signed_text(value).skip(1) =~= decimal(size));
    }
}

/// A field stays where a declaration of its name has its type, and only there; and what
/// stays is unchanged.
pub proof fn declared_fields_stay(
    schema: Seq<FieldDeclaration>,
    fields: Map<Seq<char>, ValueView>,
    name: Seq<char>,
)
    ensures
        declared_only(schema, fields).contains_key(name) <==> fields.contains_key(name) && exists|
            i: int,
        |
            0 <= i < schema.len() && (#[trigger] schema[i]).field@ == name && (
            match fields[name] {
                ValueView::Bool(_) => schema[i].field_type == FieldType::Bool,
                ValueView::Integer(_) => schema[i].field_type == FieldType::Integer,
                ValueView::Float(_) => schema[i].field_type == FieldType::Float,
                ValueView::String(_) => schema[i].field_type == FieldType::String,
            }),
        declared_only(schema, fields).contains_key(name) ==> declared_only(schema, fields)[name]
            == fields[name],
{
    if exists|i: int| 0 <= i < schema.len() && (#[trigger] schema[i]).field@ == name
        && schema[i].field_type == fields[name].type_of() {
        let i = choose|i: int| 0 <= i < schema.len() && (#[trigger] schema[i]).field@ == name
            && schema[i].field_type == fields[name].type_of();
        assert(declares_field(schema[i], name, fields[name]));
    }
    if is_declared(schema, name, fields[name]) {
        let i = choose|i: int|
            0 <= i < schema.len() && #[trigger] declares_field(schema[i], name, fields[name]);
        assert(schema[i].field@ == name);
    }
}

/// Truth values are shown as `true` and `false`, and texts as they are.
pub proof fn texts_are_shown_as_they_are(value: Seq<char>, bits: u64)
    ensures
        ValueView::String(value).shown() == Some(value),
        ValueView::Bool(true).shown() == Some(seq!['t', 'r', 'u', 'e']),
        ValueView::Bool(false).shown() == Some(seq!['f', 'a', 'l', 's', 'e']),
        ValueView::Float(bits).shown() is None,
{
    reveal_strlit("true");
    reveal_strlit("false");
    assert("true"@ =~= seq!['t', 'r', 'u', 'e']);
    assert("false"@ =~= seq!['f', 'a', 'l', 's', 'e']);
}

} // verus!
