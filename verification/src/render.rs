//! Profiles as text.
//!
//! Both renderings work at any time, on a store that is still filling up too. That is
//! why what is provisional is marked rather than hidden.

use vstd::prelude::*;

use crate::address::{addr_string, addr_text};
use crate::evidence::{Confidence, EvidenceView};
use crate::observation::Endpoint;
use crate::order::{lemma_sorted_items, sort, sorting_sorts, Ranked};
use crate::profile::{
    attribute_name, profile_of, recorded, rows_of, Attribute, AttributeView, Profile, ProfileStore,
    ProfileView, Verdict,
};
use crate::table::{
    is_listing, is_order, lemma_listing_update, lemma_map_values, lemma_same_entries, listing,
    listings_are_unique, viewed,
};
use crate::text;
use crate::text::{begins, decimal, join, occurs, strings, text_before, texts_are_ordered};
use crate::table::{lemma_index_of_key, lemma_index_unique, lemma_listing_lists};

verus! {

// ---------------------------------------------------------------------------
// Orders

/// Scanners come first, then what is not known, then the benign.
pub open spec fn verdict_rank(verdict: Verdict) -> int {
    match verdict {
        Verdict::Scanner => 0,
        Verdict::Unknown => 1,
        Verdict::Benign => 2,
    }
}

/// Rows are ordered by verdict, then by endpoint.
pub open spec fn row_before(a: (Endpoint, ProfileView), b: (Endpoint, ProfileView)) -> bool {
    verdict_rank(a.1.verdict) < verdict_rank(b.1.verdict) || (verdict_rank(a.1.verdict)
        == verdict_rank(b.1.verdict) && a.0.before(b.0))
}

/// Attributes are ordered by name.
pub open spec fn attribute_before(
    a: (Seq<char>, AttributeView),
    b: (Seq<char>, AttributeView),
) -> bool {
    text_before(a.0, b.0)
}

fn rank_of(verdict: Verdict) -> (r: u8)
    ensures
        r == verdict_rank(verdict),
{
    match verdict {
        Verdict::Scanner => 0,
        Verdict::Unknown => 1,
        Verdict::Benign => 2,
    }
}

/// An endpoint and its profile, to be put in order.
struct Row<'a> {
    endpoint: &'a Endpoint,
    profile: &'a Profile,
}

impl<'a> Row<'a> {
    spec fn pair(self) -> (Endpoint, ProfileView) {
        (*self.endpoint, self.profile@)
    }
}

impl<'a> Ranked for Row<'a> {
    closed spec fn precedes(self, other: Self) -> bool {
        row_before(self.pair(), other.pair())
    }

    proof fn ranks(a: Self, b: Self, c: Self) {
        crate::observation::endpoints_are_ordered(*a.endpoint, *b.endpoint, *c.endpoint);
        crate::observation::endpoints_are_ordered(*c.endpoint, *b.endpoint, *a.endpoint);
    }

    fn is_before(&self, other: &Self) -> (r: bool) {
        let mine: u8 = rank_of(self.profile.verdict);
        let theirs: u8 = rank_of(other.profile.verdict);
        mine < theirs || (mine == theirs && self.endpoint.is_before(other.endpoint))
    }
}

/// A name and its attribute, to be put in order.
struct Entry<'a> {
    name: &'a String,
    attribute: &'a Attribute,
}

impl<'a> Entry<'a> {
    spec fn pair(self) -> (Seq<char>, AttributeView) {
        (self.name@, self.attribute@)
    }
}

impl<'a> Ranked for Entry<'a> {
    closed spec fn precedes(self, other: Self) -> bool {
        attribute_before(self.pair(), other.pair())
    }

    proof fn ranks(a: Self, b: Self, c: Self) {
        texts_are_ordered(a.name@, b.name@, c.name@);
    }

    fn is_before(&self, other: &Self) -> (r: bool) {
        text::text_is_before(self.name.as_str(), other.name.as_str())
    }
}

/// The attributes of a profile, by name.
pub open spec fn attributes_in_order(attributes: Map<Seq<char>, AttributeView>) -> Seq<
    (Seq<char>, AttributeView),
> {
    listing(
        attributes,
        |a: (Seq<char>, AttributeView), b: (Seq<char>, AttributeView)| attribute_before(a, b),
    )
}

/// The rows of a store, by verdict and endpoint.
pub open spec fn rows_in_order(store: Map<Endpoint, ProfileView>) -> Seq<(Endpoint, ProfileView)> {
    listing(
        store,
        |a: (Endpoint, ProfileView), b: (Endpoint, ProfileView)| row_before(a, b),
    )
}

spec fn entry_pairs(entries: Seq<Entry<'_>>) -> Seq<(Seq<char>, AttributeView)> {
    Seq::new(entries.len(), |i: int| entries[i].pair())
}

spec fn row_pairs(rows: Seq<Row<'_>>) -> Seq<(Endpoint, ProfileView)> {
    Seq::new(rows.len(), |i: int| rows[i].pair())
}

fn ordered_attributes(profile: &Profile) -> (r: Vec<Entry<'_>>)
    requires
        profile.attributes.wf(),
    ensures
        entry_pairs(r@) == attributes_in_order(profile@.attributes),
{
    let mut entries: Vec<Entry<'_>> = Vec::new();
    let ghost pairs = profile.attributes.pairs();
    let ghost views = viewed(pairs, |a: Attribute| a@);
    let mut i: usize = 0;
    while i < profile.attributes.len()
        invariant
            pairs == profile.attributes.pairs(),
            views == viewed(pairs, |a: Attribute| a@),
            i <= pairs.len(),
            entry_pairs(entries@) == views.take(i as int),
        decreases pairs.len() - i,
    {
        let ghost before = entry_pairs(entries@);
        let (name, attribute) = profile.attributes.at(i);
        let entry = Entry { name, attribute };
        entries.push(entry);
        assert(entry_pairs(entries@) =~= before.push(entry.pair()));
        assert(entry_pairs(entries@) =~= views.take(i + 1));
        i = i + 1;
    }
    assert(views.take(i as int) =~= views);
    let ghost given = entries@;
    let r = sort(entries);
    proof {
        lemma_map_values(pairs, |a: Attribute| a@);
        let map = profile@.attributes;
        let name_of = |e: Entry<'_>| e.name@;
        assert forall|a: int, b: int| 0 <= a < b < given.len() implies name_of(
            #[trigger] given[a],
        ) != name_of(#[trigger] given[b]) by {
            assert(views[a] == given[a].pair() && views[b] == given[b].pair());
            assert(views[a].0 != views[b].0);
        }
        lemma_sorted_items(given, name_of);
        sorting_sorts(given);
        let before = |a: (Seq<char>, AttributeView), b: (Seq<char>, AttributeView)|
            attribute_before(a, b);
        let found = entry_pairs(r@);
        assert forall|a: int, b: int| 0 <= a < b < found.len() implies (#[trigger] found[a]).0 != (
        #[trigger] found[b]).0 && before(found[a], found[b]) by {
            assert(name_of(r@[a]) != name_of(r@[b]));
            assert(!r@[b].precedes(r@[a]));
            texts_are_ordered(found[a].0, found[b].0, found[a].0);
        }
        assert forall|p: (Seq<char>, AttributeView)| #[trigger] found.contains(p)
            <==> views.contains(p) by {
            if found.contains(p) {
                let k = choose|k: int| 0 <= k < found.len() && found[k] == p;
                assert(r@.contains(r@[k]));
                assert(given.contains(r@[k]));
                let m = choose|m: int| 0 <= m < given.len() && given[m] == r@[k];
                assert(views[m] == p);
            }
            if views.contains(p) {
                let m = choose|m: int| 0 <= m < views.len() && views[m] == p;
                assert(given.contains(given[m]));
                assert(r@.contains(given[m]));
                let k = choose|k: int| 0 <= k < r@.len() && r@[k] == given[m];
                assert(found[k] == p);
            }
        }
        lemma_same_entries(found, views);
        assert(is_listing(found, map, before));
        assert forall|x: (Seq<char>, AttributeView), y: (Seq<char>, AttributeView)| #[trigger]
            before(x, y) implies !before(y, x) by {
            texts_are_ordered(x.0, y.0, x.0);
        }
        listings_are_unique(found, listing(map, before), map, before);
    }
    r
}

fn ordered_rows(store: &ProfileStore) -> (r: Vec<Row<'_>>)
    requires
        store.wf(),
    ensures
        row_pairs(r@) == rows_in_order(store@),
        forall|i: int| 0 <= i < r@.len() ==> (#[trigger] r@[i]).profile.attributes.wf(),
{
    let listed = store.iter();
    let ghost views = store.rows();
    let mut rows: Vec<Row<'_>> = Vec::new();
    let mut i: usize = 0;
    assert(row_pairs(rows@) =~= views.take(0));
    while i < listed.len()
        invariant
            i <= listed@.len(),
            views == store.rows(),
            rows_of(listed@) == views,
            forall|j: int| 0 <= j < listed@.len() ==> (#[trigger] listed@[j]).1.attributes.wf(),
            row_pairs(rows@) == views.take(i as int),
            forall|j: int| 0 <= j < rows@.len() ==> (#[trigger] rows@[j]).profile.attributes.wf(),
        decreases listed@.len() - i,
    {
        let ghost before = row_pairs(rows@);
        let (endpoint, profile) = listed[i];
        assert(views[i as int] == (*listed@[i as int].0, listed@[i as int].1@));
        assert(listed@[i as int].1.attributes.wf());
        let row = Row { endpoint, profile };
        rows.push(row);
        assert(row_pairs(rows@) =~= before.push(row.pair()));
        assert(row_pairs(rows@) =~= views.take(i + 1));
        i = i + 1;
    }
    assert(rows_of(listed@).len() == listed@.len());
    assert(views.take(i as int) =~= views);
    let ghost given = rows@;
    let r = sort(rows);
    proof {
        let map = store@;
        let end_of = |row: Row<'_>| *row.endpoint;
        assert forall|a: int, b: int| 0 <= a < b < given.len() implies end_of(
            #[trigger] given[a],
        ) != end_of(#[trigger] given[b]) by {
            assert(views[a] == given[a].pair() && views[b] == given[b].pair());
            assert(views[a].0 != views[b].0);
        }
        lemma_sorted_items(given, end_of);
        sorting_sorts(given);
        let before = |a: (Endpoint, ProfileView), b: (Endpoint, ProfileView)| row_before(a, b);
        let found = row_pairs(r@);
        assert forall|a: int, b: int| 0 <= a < b < found.len() implies (#[trigger] found[a]).0 != (
        #[trigger] found[b]).0 && before(found[a], found[b]) by {
            assert(end_of(r@[a]) != end_of(r@[b]));
            assert(!r@[b].precedes(r@[a]));
            crate::observation::endpoints_are_ordered(found[a].0, found[b].0, found[a].0);
        }
        assert forall|p: (Endpoint, ProfileView)| #[trigger] found.contains(p)
            <==> views.contains(p) by {
            if found.contains(p) {
                let k = choose|k: int| 0 <= k < found.len() && found[k] == p;
                assert(r@.contains(r@[k]));
                assert(given.contains(r@[k]));
                let m = choose|m: int| 0 <= m < given.len() && given[m] == r@[k];
                assert(views[m] == p);
            }
            if views.contains(p) {
                let m = choose|m: int| 0 <= m < views.len() && views[m] == p;
                assert(given.contains(given[m]));
                assert(r@.contains(given[m]));
                let k = choose|k: int| 0 <= k < r@.len() && r@[k] == given[m];
                assert(found[k] == p);
            }
        }
        lemma_same_entries(found, views);
        assert(is_listing(found, map, before));
        assert forall|x: (Endpoint, ProfileView), y: (Endpoint, ProfileView)| #[trigger]
            before(x, y) implies !before(y, x) by {
            crate::observation::endpoints_are_ordered(x.0, y.0, x.0);
        }
        listings_are_unique(found, listing(map, before), map, before);
        assert forall|j: int| 0 <= j < r@.len() implies (
        #[trigger] r@[j]).profile.attributes.wf() by {
            assert(r@.contains(r@[j]));
            assert(given.contains(r@[j]));
        }
    }
    r
}

// ---------------------------------------------------------------------------
// Texts

/// How a verdict is shown.
pub open spec fn label_of(verdict: Verdict) -> Seq<char> {
    match verdict {
        Verdict::Scanner => "SCANNER"@,
        Verdict::Benign => "benign"@,
        Verdict::Unknown => "unknown"@,
    }
}

fn verdict_label(verdict: Verdict) -> (r: &'static str)
    ensures
        r@ == label_of(verdict),
{
    match verdict {
        Verdict::Scanner => "SCANNER",
        Verdict::Benign => "benign",
        Verdict::Unknown => "unknown",
    }
}

/// How a confidence is shown.
pub open spec fn confidence_word(confidence: Confidence) -> Seq<char> {
    match confidence {
        Confidence::Weak => "Weak"@,
        Confidence::Likely => "Likely"@,
        Confidence::Strong => "Strong"@,
    }
}

fn confidence_name(confidence: Confidence) -> (r: &'static str)
    ensures
        r@ == confidence_word(confidence),
{
    match confidence {
        Confidence::Weak => "Weak",
        Confidence::Likely => "Likely",
        Confidence::Strong => "Strong",
    }
}

/// A text with spaces behind it up to a width.
pub open spec fn padded(s: Seq<char>, width: nat) -> Seq<char> {
    s + Seq::new(
        if s.len() < width {
            (width - s.len()) as nat
        } else {
            0
        },
        |i: int| ' ',
    )
}

fn push_padded(out: &mut String, s: &str, width: usize)
    ensures
        final(out)@ == old(out)@ + padded(s@, width as nat),
{
    let chars = text::chars_of(s);
    out.append(s);
    let ghost start = out@;
    let mut i: usize = chars.len();
    assert(out@ =~= start + Seq::new(0, |i: int| ' '));
    while i < width
        invariant
            chars@.len() <= i,
            chars@ == s@,
            i <= width || i == chars@.len(),
            out@ == start + Seq::new((i - chars@.len()) as nat, |i: int| ' '),
        decreases width - i,
    {
        let ghost before = out@;
        out.push(' ');
        assert(out@ =~= start + Seq::new((i + 1 - chars@.len()) as nat, |i: int| ' '));
        i = i + 1;
    }
    assert(out@ =~= old(out)@ + padded(s@, width as nat));
}

/// An endpoint as it is shown.
pub open spec fn endpoint_text(endpoint: Endpoint) -> Seq<char> {
    addr_text(endpoint.addr) + ":"@ + decimal(endpoint.port as nat)
}

fn push_endpoint(out: &mut String, endpoint: &Endpoint)
    ensures
        final(out)@ == old(out)@ + endpoint_text(*endpoint),
{
    let addr = addr_string(endpoint.addr);
    out.append(addr.as_str());
    out.append(":");
    text::push_decimal(out, endpoint.port as u64);
    assert(out@ =~= old(out)@ + endpoint_text(*endpoint));
}

/// How it is shown that an attribute is provisional.
pub open spec fn mark_of(provisional: bool) -> Seq<char> {
    if provisional {
        " (provisional)"@
    } else {
        Seq::empty()
    }
}

fn push_mark(out: &mut String, provisional: bool)
    ensures
        final(out)@ == old(out)@ + mark_of(provisional),
{
    if provisional {
        out.append(" (provisional)");
    }
    assert(out@ =~= old(out)@ + mark_of(provisional));
}

/// The line of an attribute.
pub open spec fn attribute_line(entry: (Seq<char>, AttributeView)) -> Seq<char> {
    "  "@ + padded(entry.0, 20) + " "@ + entry.1.value + " ("@ + confidence_word(entry.1.confidence)
        + ")"@ + mark_of(entry.1.provisional) + "\n"@
}

/// Texts put one after the other.
pub open spec fn glued(pieces: Seq<Seq<char>>) -> Seq<char>
    decreases pieces.len(),
{
    if pieces.len() == 0 {
        Seq::empty()
    } else {
        glued(pieces.drop_last()) + pieces.last()
    }
}

/// What is shown of a profile: a line for the endpoint, and one for each attribute.
pub open spec fn profile_text(row: (Endpoint, ProfileView)) -> Seq<char> {
    endpoint_text(row.0) + " ["@ + label_of(row.1.verdict) + "]\n"@ + glued(
        attributes_in_order(row.1.attributes).map_values(
            |entry: (Seq<char>, AttributeView)| attribute_line(entry),
        ),
    )
}

/// What is shown of a store: its profiles in order, or that there are none.
pub open spec fn store_text(store: Map<Endpoint, ProfileView>) -> Seq<char> {
    let rows = rows_in_order(store);
    if rows.len() == 0 {
        "no profiles\n"@
    } else {
        glued(rows.map_values(|row: (Endpoint, ProfileView)| profile_text(row)))
    }
}

fn push_attribute(out: &mut String, entry: &Entry<'_>)
    ensures
        final(out)@ == old(out)@ + attribute_line(entry.pair()),
{
    out.append("  ");
    push_padded(out, entry.name.as_str(), 20);
    out.append(" ");
    out.append(entry.attribute.value.as_str());
    out.append(" (");
    out.append(confidence_name(entry.attribute.confidence));
    out.append(")");
    push_mark(out, entry.attribute.provisional);
    out.append("\n");
    assert(out@ =~= old(out)@ + attribute_line(entry.pair()));
}

fn push_profile(out: &mut String, row: &Row<'_>)
    requires
        row.profile.attributes.wf(),
    ensures
        final(out)@ == old(out)@ + profile_text(row.pair()),
{
    push_endpoint(out, row.endpoint);
    out.append(" [");
    out.append(verdict_label(row.profile.verdict));
    out.append("]\n");
    let ghost head = out@;
    assert(head =~= old(out)@ + (endpoint_text(*row.endpoint) + " ["@ + label_of(
        row.profile.verdict,
    ) + "]\n"@));
    let entries = ordered_attributes(row.profile);
    let ghost pairs = entry_pairs(entries@);
    let ghost lines = pairs.map_values(
        |entry: (Seq<char>, AttributeView)| attribute_line(entry),
    );
    let mut i: usize = 0;
    assert(out@ =~= head + glued(lines.take(0)));
    while i < entries.len()
        invariant
            i <= entries@.len(),
            pairs == entry_pairs(entries@),
            lines == pairs.map_values(
                |entry: (Seq<char>, AttributeView)| attribute_line(entry),
            ),
            out@ == head + glued(lines.take(i as int)),
        decreases entries@.len() - i,
    {
        proof {
            assert(lines.take(i + 1).drop_last() =~= lines.take(i as int));
            assert(lines.take(i + 1).last() == attribute_line(entries@[i as int].pair()));
        }
        push_attribute(out, &entries[i]);
        assert(out@ =~= head + glued(lines.take(i + 1)));
        i = i + 1;
    }
    assert(lines.take(i as int) =~= lines);
    assert(out@ =~= old(out)@ + profile_text(row.pair()));
}

/// Renders every profile, scanners first.
pub fn render_text(store: &ProfileStore) -> (r: String)
    requires
        store.wf(),
    ensures
        r@ == store_text(store@),
{
    let rows = ordered_rows(store);
    if rows.len() == 0 {
        return text::copy_of("no profiles\n");
    }
    let ghost pairs = row_pairs(rows@);
    let ghost texts = pairs.map_values(|row: (Endpoint, ProfileView)| profile_text(row));
    let mut out = String::new();
    let mut i: usize = 0;
    assert(out@ =~= glued(texts.take(0)));
    while i < rows.len()
        invariant
            i <= rows@.len(),
            pairs == row_pairs(rows@),
            texts == pairs.map_values(|row: (Endpoint, ProfileView)| profile_text(row)),
            forall|j: int| 0 <= j < rows@.len() ==> (#[trigger] rows@[j]).profile.attributes.wf(),
            out@ == glued(texts.take(i as int)),
        decreases rows@.len() - i,
    {
        proof {
            assert(texts.take(i + 1).drop_last() =~= texts.take(i as int));
            assert(texts.take(i + 1).last() == profile_text(rows@[i as int].pair()));
            assert(rows@[i as int].profile.attributes.wf());
        }
        push_profile(&mut out, &rows[i]);
        i = i + 1;
    }
    assert(texts.take(i as int) =~= texts);
    out
}

/// An attribute within a line.
pub open spec fn short_attribute(entry: (Seq<char>, AttributeView)) -> Seq<char> {
    entry.0.push('=') + entry.1.value + mark_of(entry.1.provisional)
}

/// A profile in one line: the endpoint, the verdict, the attributes, and how many
/// attributes and claims there are.
pub open spec fn line_text(endpoint: Endpoint, profile: ProfileView) -> Seq<char> {
    let entries = attributes_in_order(profile.attributes);
    let attributes = join(
        entries.map_values(|entry: (Seq<char>, AttributeView)| short_attribute(entry)),
        seq![' '],
    );
    endpoint_text(endpoint) + " "@ + label_of(profile.verdict) + " "@ + (if attributes.len() == 0 {
        Seq::empty()
    } else {
        attributes.push(' ')
    }) + "("@ + decimal(entries.len()) + " attrs, "@ + decimal(profile.evidence.len())
        + " evidence)"@
}

/// Renders a profile in one line.
pub fn render_line(endpoint: &Endpoint, profile: &Profile) -> (r: String)
    requires
        profile.attributes.wf(),
    ensures
        r@ == line_text(*endpoint, profile@),
{
    let entries = ordered_attributes(profile);
    let ghost pairs = entry_pairs(entries@);
    let ghost wanted = pairs.map_values(
        |entry: (Seq<char>, AttributeView)| short_attribute(entry),
    );
    let mut pieces: Vec<String> = Vec::new();
    let mut i: usize = 0;
    assert(strings(pieces@) =~= wanted.take(0));
    while i < entries.len()
        invariant
            i <= entries@.len(),
            pairs == entry_pairs(entries@),
            wanted == pairs.map_values(
                |entry: (Seq<char>, AttributeView)| short_attribute(entry),
            ),
            strings(pieces@) == wanted.take(i as int),
        decreases entries@.len() - i,
    {
        let ghost before = strings(pieces@);
        let mut piece = text::copy_of(entries[i].name.as_str());
        piece.push('=');
        piece.append(entries[i].attribute.value.as_str());
        push_mark(&mut piece, entries[i].attribute.provisional);
        assert(piece@ == short_attribute(entries@[i as int].pair()));
        pieces.push(piece);
        assert(strings(pieces@) =~= before.push(piece@));
        assert(strings(pieces@) =~= wanted.take(i + 1));
        i = i + 1;
    }
    assert(wanted.take(i as int) =~= wanted);
    let attributes = text::joined(&pieces, ' ');
    let shown = text::chars_of(attributes.as_str());
    let count: usize = entries.len();
    assert(pairs.len() == entries@.len());

    let mut out = String::new();
    push_endpoint(&mut out, endpoint);
    assert(out@ =~= endpoint_text(*endpoint));
    out.append(" ");
    out.append(verdict_label(profile.verdict));
    out.append(" ");
    let ghost head = out@;
    if shown.len() > 0 {
        out.append(attributes.as_str());
        out.push(' ');
        assert(out@ =~= head + attributes@.push(' '));
    } else {
        assert(out@ =~= head + Seq::empty());
    }
    out.append("(");
    text::push_decimal(&mut out, count as u64);
    out.append(" attrs, ");
    text::push_decimal(&mut out, profile.evidence.len() as u64);
    out.append(" evidence)");
    out
}

// ---------------------------------------------------------------------------
// Laws

/// Names put attributes into one order.
proof fn lemma_attribute_order()
    ensures
        is_order(
            |a: (Seq<char>, AttributeView), b: (Seq<char>, AttributeView)| attribute_before(a, b),
        ),
{
    let before = |a: (Seq<char>, AttributeView), b: (Seq<char>, AttributeView)|
        attribute_before(a, b);
    assert forall|x: (Seq<char>, AttributeView), y: (Seq<char>, AttributeView)| #[trigger]
        before(x, y) implies !before(y, x) by {
        texts_are_ordered(x.0, y.0, x.0);
    }
    assert forall|
        x: (Seq<char>, AttributeView),
        y: (Seq<char>, AttributeView),
        z: (Seq<char>, AttributeView),
    | #[trigger]
        before(x, y) && #[trigger] before(y, z) implies before(x, z) by {
        texts_are_ordered(x.0, y.0, z.0);
    }
    assert forall|x: (Seq<char>, AttributeView), y: (Seq<char>, AttributeView)|
        x.0 != y.0 implies #[trigger] before(x, y) || before(y, x) by {
        texts_are_ordered(x.0, y.0, x.0);
    }
}

/// Verdicts and endpoints put rows into one order.
proof fn lemma_row_order()
    ensures
        is_order(|a: (Endpoint, ProfileView), b: (Endpoint, ProfileView)| row_before(a, b)),
{
    let before = |a: (Endpoint, ProfileView), b: (Endpoint, ProfileView)| row_before(a, b);
    assert forall|x: (Endpoint, ProfileView), y: (Endpoint, ProfileView)| #[trigger]
        before(x, y) implies !before(y, x) by {
        crate::observation::endpoints_are_ordered(x.0, y.0, x.0);
    }
    assert forall|
        x: (Endpoint, ProfileView),
        y: (Endpoint, ProfileView),
        z: (Endpoint, ProfileView),
    | #[trigger]
        before(x, y) && #[trigger] before(y, z) implies before(x, z) by {
        crate::observation::endpoints_are_ordered(x.0, y.0, z.0);
    }
    assert forall|x: (Endpoint, ProfileView), y: (Endpoint, ProfileView)|
        x.0 != y.0 implies #[trigger] before(x, y) || before(y, x) by {
        crate::observation::endpoints_are_ordered(x.0, y.0, x.0);
    }
}

/// Another piece makes the text longer or shorter by as much as it is longer or shorter
/// itself.
proof fn lemma_glued_len(pieces: Seq<Seq<char>>, i: int, piece: Seq<char>)
    requires
        0 <= i < pieces.len(),
    ensures
        glued(pieces.update(i, piece)).len() + pieces[i].len() == glued(pieces).len() + piece.len(),
    decreases pieces.len(),
{
    let changed = pieces.update(i, piece);
    let head = pieces.drop_last();
    if i < pieces.len() - 1 {
        lemma_glued_len(head, i, piece);
        assert(changed.drop_last() =~= head.update(i, piece));
    } else {
        assert(changed.drop_last() =~= head);
    }
}

proof fn lemma_join_len(pieces: Seq<Seq<char>>, separator: Seq<char>, i: int, piece: Seq<char>)
    requires
        0 <= i < pieces.len(),
    ensures
        join(pieces.update(i, piece), separator).len() + pieces[i].len() == join(
            pieces,
            separator,
        ).len() + piece.len(),
        join(pieces, separator).len() >= pieces[i].len(),
    decreases pieces.len(),
{
    let changed = pieces.update(i, piece);
    let head = pieces.drop_last();
    if pieces.len() > 1 {
        if i < pieces.len() - 1 {
            lemma_join_len(head, separator, i, piece);
            assert(changed.drop_last() =~= head.update(i, piece));
        } else {
            assert(changed.drop_last() =~= head);
        }
    }
}

/// A piece stands in the text that it is part of.
proof fn lemma_glued_shows(pieces: Seq<Seq<char>>, i: int, needle: Seq<char>)
    requires
        0 <= i < pieces.len(),
        occurs(pieces[i], needle),
    ensures
        occurs(glued(pieces), needle),
    decreases pieces.len(),
{
    let head = pieces.drop_last();
    if i < pieces.len() - 1 {
        lemma_glued_shows(head, i, needle);
        lemma_shown_within(Seq::empty(), glued(head), pieces.last(), needle);
        assert(Seq::<char>::empty() + glued(head) + pieces.last() =~= glued(pieces));
    } else {
        lemma_shown_within(glued(head), pieces.last(), Seq::empty(), needle);
        assert(glued(head) + pieces.last() + Seq::<char>::empty() =~= glued(pieces));
    }
}

proof fn lemma_shown_within(a: Seq<char>, b: Seq<char>, c: Seq<char>, needle: Seq<char>)
    requires
        occurs(b, needle),
    ensures
        occurs(a + b + c, needle),
{
    let i = choose|i: int| 0 <= i <= b.len() && #[trigger] begins(b.skip(i), needle);
    let whole = a + b + c;
    assert(whole.skip(a.len() + i).take(needle.len() as int) =~= b.skip(i).take(
        needle.len() as int,
    ));
    assert(begins(whole.skip(a.len() + i), needle));
}

/// Whether a claim takes effect: no stronger one of the same method stands under its key.
pub open spec fn takes_effect(profile: ProfileView, evidence: EvidenceView) -> bool {
    let name = attribute_name(evidence.method, evidence.key);
    !(profile.attributes.contains_key(name) && profile.attributes[name].confidence.rank()
        > evidence.confidence.rank())
}

/// A profile with a claim that is provisional is longer to tell than one with the same
/// claim once it is settled, and both show what is claimed.
proof fn lemma_profile_marked(
    subject: Endpoint,
    profile: ProfileView,
    evidence: EvidenceView,
)
    requires
        profile.attributes.dom().finite(),
        takes_effect(profile, evidence),
    ensures
        ({
            let guess = profile.with_claim(EvidenceView { provisional: true, ..evidence });
            let sure = profile.with_claim(EvidenceView { provisional: false, ..evidence });
            &&& profile_text((subject, guess)).len() > profile_text((subject, sure)).len()
            &&& line_text(subject, guess).len() > line_text(subject, sure).len()
            &&& occurs(profile_text((subject, guess)), evidence.value)
            &&& occurs(profile_text((subject, sure)), evidence.value)
        }),
{
    let guess = profile.with_claim(EvidenceView { provisional: true, ..evidence });
    let sure = profile.with_claim(EvidenceView { provisional: false, ..evidence });
    let name = attribute_name(evidence.method, evidence.key);
    let before = |a: (Seq<char>, AttributeView), b: (Seq<char>, AttributeView)|
        attribute_before(a, b);
    let told = sure.attributes[name];
    lemma_attribute_order();
    assert(guess.attributes.insert(name, told) =~= sure.attributes);
    assert forall|x: (Seq<char>, AttributeView)|
        (#[trigger] before((name, told), x) <==> before((name, guess.attributes[name]), x)) && (
        #[trigger] before(x, (name, told)) <==> before(x, (name, guess.attributes[name]))) by {
    }
    let i = lemma_listing_update(guess.attributes, before, name, told);
    let guesses = attributes_in_order(guess.attributes);
    let sures = attributes_in_order(sure.attributes);
    let (a, b) = (guesses[i], sures[i]);
    reveal_strlit(" (provisional)");
    lemma_line_shows(a);
    lemma_line_shows(b);

    let line = |entry: (Seq<char>, AttributeView)| attribute_line(entry);
    lemma_glued_len(guesses.map_values(line), i, attribute_line(b));
    assert(guesses.map_values(line).update(i, attribute_line(b)) =~= sures.map_values(line));
    lemma_glued_shows(guesses.map_values(line), i, evidence.value);
    lemma_glued_shows(sures.map_values(line), i, evidence.value);
    let head = endpoint_text(subject) + " ["@ + label_of(profile.verdict) + "]\n"@;
    lemma_shown_within(head, glued(guesses.map_values(line)), Seq::empty(), evidence.value);
    lemma_shown_within(head, glued(sures.map_values(line)), Seq::empty(), evidence.value);
    assert(head + glued(guesses.map_values(line)) + Seq::<char>::empty() =~= profile_text(
        (subject, guess),
    ));
    assert(head + glued(sures.map_values(line)) + Seq::<char>::empty() =~= profile_text(
        (subject, sure),
    ));

    let short = |entry: (Seq<char>, AttributeView)| short_attribute(entry);
    lemma_join_len(guesses.map_values(short), seq![' '], i, short_attribute(b));
    lemma_join_len(sures.map_values(short), seq![' '], i, short_attribute(b));
    assert(guesses.map_values(short).update(i, short_attribute(b)) =~= sures.map_values(short));
}

/// The line of an attribute shows its value.
proof fn lemma_line_shows(entry: (Seq<char>, AttributeView))
    ensures
        occurs(attribute_line(entry), entry.1.value),
{
    let value = entry.1.value;
    let head = "  "@ + padded(entry.0, 20) + " "@;
    let tail = " ("@ + confidence_word(entry.1.confidence) + ")"@ + mark_of(entry.1.provisional)
        + "\n"@;
    assert(value.skip(0).take(value.len() as int) =~= value);
    assert(begins(value.skip(0), value));
    assert(occurs(value, value));
    lemma_shown_within(head, value, tail, value);
    assert(head + value + tail =~= attribute_line(entry));
}

/// What is provisional is marked, not hidden: a store that takes in a provisional claim
/// and one that takes in the same claim once it is settled render to different texts, and
/// both show what is claimed. A claim that a stronger one stands against shows in neither.
pub proof fn provisional_claims_are_marked(
    store: Map<Endpoint, ProfileView>,
    evidence: EvidenceView,
)
    requires
        store.dom().finite(),
        profile_of(store, evidence.subject).attributes.dom().finite(),
        takes_effect(profile_of(store, evidence.subject), evidence),
    ensures
        ({
            let guess = recorded(store, EvidenceView { provisional: true, ..evidence });
            let sure = recorded(store, EvidenceView { provisional: false, ..evidence });
            let subject = evidence.subject;
            &&& store_text(guess) != store_text(sure)
            &&& line_text(subject, guess[subject]) != line_text(subject, sure[subject])
            &&& occurs(store_text(guess), evidence.value)
            &&& occurs(store_text(sure), evidence.value)
        }),
{
    let guess = recorded(store, EvidenceView { provisional: true, ..evidence });
    let sure = recorded(store, EvidenceView { provisional: false, ..evidence });
    let subject = evidence.subject;
    let before = |a: (Endpoint, ProfileView), b: (Endpoint, ProfileView)| row_before(a, b);
    lemma_profile_marked(subject, profile_of(store, subject), evidence);
    lemma_row_order();
    assert(guess.insert(subject, sure[subject]) =~= sure);
    let i = lemma_listing_update(guess, before, subject, sure[subject]);
    let guesses = rows_in_order(guess);
    let sures = rows_in_order(sure);
    let show = |row: (Endpoint, ProfileView)| profile_text(row);
    lemma_glued_len(guesses.map_values(show), i, profile_text(sures[i]));
    assert(guesses.map_values(show).update(i, profile_text(sures[i])) =~= sures.map_values(show));
    lemma_glued_shows(guesses.map_values(show), i, evidence.value);
    lemma_glued_shows(sures.map_values(show), i, evidence.value);
}

/// The rows of a store are all of its profiles, each once: first those of scanners, then
/// the unknown, then the benign, and those of one verdict by endpoint.
pub proof fn scanners_come_first(
    store: Map<Endpoint, ProfileView>,
    i: int,
    j: int,
    subject: Endpoint,
)
    requires
        store.dom().finite(),
        0 <= i < j < rows_in_order(store).len(),
    ensures
        ({
            let rows = rows_in_order(store);
            let (a, b) = (rows[i].1.verdict, rows[j].1.verdict);
            &&& b == Verdict::Scanner ==> a == Verdict::Scanner
            &&& b == Verdict::Unknown ==> a != Verdict::Benign
            &&& a == b ==> rows[i].0.before(rows[j].0)
            &&& rows[i].0 != rows[j].0
            &&& store.contains_key(rows[i].0) && store[rows[i].0] == rows[i].1
            &&& store.contains_key(subject) ==> rows.contains((subject, store[subject]))
        }),
{
    let before = |a: (Endpoint, ProfileView), b: (Endpoint, ProfileView)| row_before(a, b);
    let rows = rows_in_order(store);
    lemma_row_order();
    lemma_listing_lists(store, before);
    assert(before(rows[i], rows[j]));
    lemma_index_of_key(rows, subject);
    lemma_index_unique(rows, i);
    lemma_index_of_key(rows, rows[i].0);
}

/// The attributes of a profile are shown each once, by name.
pub proof fn attributes_are_shown_by_name(
    attributes: Map<Seq<char>, AttributeView>,
    i: int,
    j: int,
    name: Seq<char>,
)
    requires
        attributes.dom().finite(),
        0 <= i < j < attributes_in_order(attributes).len(),
    ensures
        ({
            let entries = attributes_in_order(attributes);
            &&& text_before(entries[i].0, entries[j].0)
            &&& attributes.contains_key(entries[i].0) && attributes[entries[i].0] == entries[i].1
            &&& attributes.contains_key(name) ==> entries.contains((name, attributes[name]))
        }),
{
    let before = |a: (Seq<char>, AttributeView), b: (Seq<char>, AttributeView)|
        attribute_before(a, b);
    let entries = attributes_in_order(attributes);
    lemma_attribute_order();
    lemma_listing_lists(attributes, before);
    assert(before(entries[i], entries[j]));
    lemma_index_of_key(entries, name);
    lemma_index_unique(entries, i);
    lemma_index_of_key(entries, entries[i].0);
}

/// A text that is padded is that text with spaces behind it, at least as long as the
/// width, and no longer than it need be.
pub proof fn padding_is_spaces(s: Seq<char>, width: nat, i: int)
    ensures
        padded(s, width).len() == (if s.len() < width {
            width
        } else {
            s.len()
        }),
        padded(s, width).take(s.len() as int) == s,
        s.len() <= i < padded(s, width).len() ==> padded(s, width)[i] == ' ',
{
    assert(padded(s, width).take(s.len() as int) =~= s);
}

/// The line of an attribute has the name behind two spaces, and the value in a column of
/// its own where the name has no more than twenty characters. It ends with the word for
/// its confidence in brackets, and with a mark where it is provisional.
pub proof fn values_stand_in_a_column(entry: (Seq<char>, AttributeView))
    ensures
        ({
            let line = attribute_line(entry);
            let name = entry.0.len() as int;
            let column = if name <= 20 {
                23
            } else {
                name + 3
            };
            let end = column + entry.1.value.len();
            let word = match entry.1.confidence {
                Confidence::Weak => "Weak"@,
                Confidence::Likely => "Likely"@,
                Confidence::Strong => "Strong"@,
            };
            &&& line.take(2) == seq![' ', ' ']
            &&& line.subrange(2, 2 + name) == entry.0
            &&& forall|i: int| 2 + name <= i < column ==> #[trigger] line[i] == ' '
            &&& line.subrange(column, end) == entry.1.value
            &&& entry.1.provisional ==> line.skip(end) == seq![' ', '('] + word + seq![')']
                + " (provisional)"@ + seq!['\n']
            &&& !entry.1.provisional ==> line.skip(end) == seq![' ', '('] + word + seq![
                ')',
                '\n',
            ]
        }),
{
    reveal_strlit("  ");
    reveal_strlit(" ");
    reveal_strlit(" (");
    reveal_strlit(")");
    reveal_strlit("\n");
    let line = attribute_line(entry);
    let name = entry.0.len() as int;
    let column = if name <= 20 {
        23
    } else {
        name + 3
    };
    let end = column + entry.1.value.len();
    let word = confidence_word(entry.1.confidence);
    assert(line.take(2) =~= seq![' ', ' ']);
    assert(line.subrange(2, 2 + name) =~= entry.0);
    assert(line.subrange(column, end) =~= entry.1.value);
    if entry.1.provisional {
        assert(line.skip(end) =~= seq![' ', '('] + word + seq![')'] + " (provisional)"@ + seq![
            '\n',
        ]);
    } else {
        assert(line.skip(end) =~= seq![' ', '('] + word + seq![')', '\n']);
    }
}

/// Texts that are put one after the other follow in order, and nothing comes between.
pub proof fn texts_follow_one_another(a: Seq<Seq<char>>, b: Seq<Seq<char>>, piece: Seq<char>)
    ensures
        glued(a + b) == glued(a) + glued(b),
        glued(seq![piece]) == piece,
        glued(Seq::empty()).len() == 0,
    decreases b.len(),
{
    assert(seq![piece].drop_last() =~= Seq::<Seq<char>>::empty());
    assert(glued(Seq::empty()) =~= Seq::<char>::empty());
    assert(Seq::<char>::empty() + piece =~= piece);
    assert(glued(seq![piece]) == glued(seq![piece].drop_last()) + seq![piece].last());
    if b.len() == 0 {
        assert(a + b =~= a);
        assert(glued(a) + glued(b) =~= glued(a));
    } else {
        texts_follow_one_another(a, b.drop_last(), piece);
        assert((a + b).drop_last() =~= a + b.drop_last());
        assert(glued(a + b) =~= glued(a) + glued(b));
    }
}

/// A profile is told by a line with its endpoint and its verdict, and by a line for each
/// attribute in order. A store is told by its profiles in order.
pub proof fn profiles_are_told_line_by_line(
    row: (Endpoint, ProfileView),
    store: Map<Endpoint, ProfileView>,
)
    ensures
        ({
            let text = profile_text(row);
            let head = addr_text(row.0.addr) + seq![':'] + decimal(row.0.port as nat) + seq![
                ' ',
                '[',
            ] + (match row.1.verdict {
                Verdict::Scanner => "SCANNER"@,
                Verdict::Unknown => "unknown"@,
                Verdict::Benign => "benign"@,
            }) + seq![']', '\n'];
            &&& text.take(head.len() as int) == head
            &&& text.skip(head.len() as int) == glued(
                attributes_in_order(row.1.attributes).map_values(
                    |entry: (Seq<char>, AttributeView)| attribute_line(entry),
                ),
            )
        }),
        rows_in_order(store).len() > 0 ==> store_text(store) == glued(
            rows_in_order(store).map_values(|row: (Endpoint, ProfileView)| profile_text(row)),
        ),
        rows_in_order(store).len() == 0 ==> store_text(store) == "no profiles\n"@,
{
    reveal_strlit(":");
    reveal_strlit(" [");
    reveal_strlit("]\n");
    let head = addr_text(row.0.addr) + seq![':'] + decimal(row.0.port as nat) + seq![' ', '[']
        + label_of(row.1.verdict) + seq![']', '\n'];
    let lines = glued(
        attributes_in_order(row.1.attributes).map_values(
            |entry: (Seq<char>, AttributeView)| attribute_line(entry),
        ),
    );
    assert(profile_text(row) =~= head + lines);
    assert((head + lines).take(head.len() as int) =~= head);
    assert((head + lines).skip(head.len() as int) =~= lines);
}

/// The line of a profile ends with how many attributes and how many claims there are, in
/// this order, and begins with its endpoint and its verdict.
pub proof fn lines_tell_how_much_there_is(endpoint: Endpoint, profile: ProfileView)
    ensures
        ({
            let line = line_text(endpoint, profile);
            let head = endpoint_text(endpoint) + seq![' '] + label_of(profile.verdict) + seq![' '];
            let tail = seq!['('] + decimal(attributes_in_order(profile.attributes).len())
                + " attrs, "@ + decimal(profile.evidence.len()) + " evidence)"@;
            let shown = attributes_in_order(profile.attributes).map_values(
                |entry: (Seq<char>, AttributeView)| short_attribute(entry),
            );
            &&& line.take(head.len() as int) == head
            &&& line.skip(line.len() - tail.len()) == tail
            &&& line.subrange(head.len() as int, line.len() - tail.len()) == (if join(
                shown,
                seq![' '],
            ).len() == 0 {
                Seq::empty()
            } else {
                join(shown, seq![' ']) + seq![' ']
            })
        }),
{
    reveal_strlit(" ");
    reveal_strlit("(");
    let line = line_text(endpoint, profile);
    let head = endpoint_text(endpoint) + seq![' '] + label_of(profile.verdict) + seq![' '];
    let tail = seq!['('] + decimal(attributes_in_order(profile.attributes).len()) + " attrs, "@
        + decimal(profile.evidence.len()) + " evidence)"@;
    let shown = attributes_in_order(profile.attributes).map_values(
        |entry: (Seq<char>, AttributeView)| short_attribute(entry),
    );
    let middle = if join(shown, seq![' ']).len() == 0 {
        Seq::empty()
    } else {
        join(shown, seq![' ']) + seq![' ']
    };
    assert(line =~= head + middle + tail);
    assert((head + middle + tail).take(head.len() as int) =~= head);
    assert((head + middle + tail).skip(line.len() - tail.len()) =~= tail);
    assert((head + middle + tail).subrange(head.len() as int, line.len() - tail.len())
        =~= middle);
}

/// Within a line an attribute is its name, an equals sign and its value, with a mark
/// behind where it is provisional.
pub proof fn short_attributes_are_equations(entry: (Seq<char>, AttributeView))
    ensures
        entry.1.provisional ==> short_attribute(entry) == entry.0 + seq!['='] + entry.1.value
            + " (provisional)"@,
        !entry.1.provisional ==> short_attribute(entry) == entry.0 + seq!['='] + entry.1.value,
{
    assert(entry.0.push('=') =~= entry.0 + seq!['=']);
    if !entry.1.provisional {
        assert(short_attribute(entry) =~= entry.0 + seq!['='] + entry.1.value);
    }
}

} // verus!
