//! The reference dictionary: id-indexed tables filled from tagged records.
//!
//! Every table is indexed by a number that the record itself supplies. A
//! table therefore grows on demand, with blank entries filling any gap, and
//! an entry can be defined again.

use crate::grammar::{
    done, fail, find_byte, lemma_find_either, lemma_number_bounds, lemma_object_body_bounds,
    object_body, scan_number, Step, CLOSE, CR, OPEN,
};
use crate::parser::{ParseError, ParseResult, Parser};
use crate::schema::{
    lemma_fields_bounds, lemma_fields_end, lemma_fields_step, scan_record, FieldKind, FieldValue,
};
use crate::stream::slide;
use crate::text::{into_string, quoted_text};
use crate::window::{
    begins_with, lemma_fields_grow, lemma_fields_slide, lemma_find_grows, lemma_find_slides,
    lemma_number_grows, lemma_number_slides, lemma_object_body_grows, lemma_object_body_slides,
    moved, settled,
};
use vstd::prelude::*;
use vstd::slice::slice_subrange;
use vstd::string::StringSliceAdditionalSpecFns;
use vstd::utf8::decode_utf8;

verus! {

/// What a [`User`] holds.
pub struct UserModel {
    pub id: u128,
    pub name: Seq<char>,
}

/// What a [`Metadata`] entry holds.
pub struct MetadataModel {
    pub id: u128,
    pub name: Seq<char>,
}

/// What a [`DataSeparation`] entry holds.
pub struct DataSeparationModel {
    pub id: u128,
    pub name: Seq<char>,
    pub values: Seq<Seq<char>>,
}

/// The content of all tables.
pub struct Tables {
    pub users: Seq<UserModel>,
    pub computers: Seq<Seq<char>>,
    pub applications: Seq<Seq<char>>,
    pub events: Seq<Seq<char>>,
    pub metadata: Seq<MetadataModel>,
    pub worker_servers: Seq<Seq<char>>,
    pub ports: Seq<u32>,
    pub sync_ports: Seq<u32>,
    pub data_separation: Seq<DataSeparationModel>,
}

/// The views of the items of a sequence, in order.
pub open spec fn views<T: View>(items: Seq<T>) -> Seq<T::V> {
    Seq::new(items.len(), |i: int| items[i]@)
}

/// A user known to the dictionary.
#[derive(Debug)]
pub struct User {
    id: u128,
    name: String,
}

impl View for User {
    type V = UserModel;

    closed spec fn view(&self) -> UserModel {
        UserModel { id: self.id, name: self.name@ }
    }
}

/// The entry that fills a gap in the table of users.
pub open spec fn blank_user() -> UserModel {
    UserModel { id: 0, name: Seq::empty() }
}

impl Default for User {
    /// The blank user: no identifier, no name.
    fn default() -> (r: User)
        ensures
            r@ == blank_user(),
    {
        User { id: 0, name: String::new() }
    }
}

impl User {
    /// The user's name.
    pub fn name(&self) -> (r: &str)
        ensures
            r@ == self@.name,
    {
        self.name.as_str()
    }

    /// The user's 128-bit identifier.
    pub fn id(&self) -> (r: u128)
        ensures
            r == self@.id,
    {
        self.id
    }
}

/// A metadata object known to the dictionary.
#[derive(Debug)]
pub struct Metadata {
    id: u128,
    name: String,
}

impl View for Metadata {
    type V = MetadataModel;

    closed spec fn view(&self) -> MetadataModel {
        MetadataModel { id: self.id, name: self.name@ }
    }
}

/// The entry that fills a gap in the table of metadata.
pub open spec fn blank_metadata() -> MetadataModel {
    MetadataModel { id: 0, name: Seq::empty() }
}

impl Default for Metadata {
    /// The blank entry: no identifier, no name.
    fn default() -> (r: Metadata)
        ensures
            r@ == blank_metadata(),
    {
        Metadata { id: 0, name: String::new() }
    }
}

impl Metadata {
    /// The object's name.
    pub fn name(&self) -> (r: &str)
        ensures
            r@ == self@.name,
    {
        self.name.as_str()
    }

    /// The object's 128-bit identifier.
    pub fn id(&self) -> (r: u128)
        ensures
            r == self@.id,
    {
        self.id
    }
}

/// A data separator with the values recorded for it.
#[derive(Debug)]
pub struct DataSeparation {
    id: u128,
    name: String,
    values: Vec<String>,
}

impl View for DataSeparation {
    type V = DataSeparationModel;

    closed spec fn view(&self) -> DataSeparationModel {
        DataSeparationModel { id: self.id, name: self.name@, values: views(self.values@) }
    }
}

/// The entry that fills a gap in the table of data separators.
pub open spec fn blank_data_separation() -> DataSeparationModel {
    DataSeparationModel { id: 0, name: Seq::empty(), values: Seq::empty() }
}

impl Default for DataSeparation {
    /// The blank separator: no identifier, no name, no values.
    fn default() -> (r: DataSeparation)
        ensures
            r@ == blank_data_separation(),
    {
        let r = DataSeparation { id: 0, name: String::new(), values: Vec::new() };
        assert(views(r.values@) == Seq::<Seq<char>>::empty());
        r
    }
}

impl DataSeparation {
    /// The separator's 128-bit identifier.
    pub fn id(&self) -> (r: u128)
        ensures
            r == self@.id,
    {
        self.id
    }

    /// The separator's name.
    pub fn name(&self) -> (r: &str)
        ensures
            r@ == self@.name,
    {
        self.name.as_str()
    }

    /// The values recorded for the separator, by index.
    pub fn values(&self) -> (r: &[String])
        ensures
            views(r@) == self@.values,
    {
        self.values.as_slice()
    }
}

/// `table` with `value` at `index`: an entry already there is overwritten;
/// otherwise the table grows to `index + 1` entries and the gap before
/// `index` is filled with `blank`.
pub open spec fn dense_insert<T>(table: Seq<T>, index: int, value: T, blank: T) -> Seq<T> {
    if index < table.len() {
        table.update(index, value)
    } else {
        Seq::new(
            (index + 1) as nat,
            |i: int|
                if i < table.len() {
                    table[i]
                } else if i < index {
                    blank
                } else {
                    value
                },
        )
    }
}

/// Dense insertion at or past the end yields a table of `index + 1` entries
/// whose gap is blank; insertion below the end keeps the length. Either way
/// `value` stands at `index` and every other old entry stays.
pub proof fn lemma_dense_insert<T>(table: Seq<T>, index: int, value: T, blank: T)
    requires
        0 <= index,
    ensures
        index < table.len() ==> dense_insert(table, index, value, blank).len() == table.len(),
        index >= table.len() ==> dense_insert(table, index, value, blank).len() == index + 1,
        dense_insert(table, index, value, blank)[index] == value,
        forall|i: int|
            table.len() <= i < index ==> #[trigger] dense_insert(table, index, value, blank)[i]
                == blank,
        forall|i: int|
            0 <= i < table.len() && i != index ==> #[trigger] dense_insert(
                table,
                index,
                value,
                blank,
            )[i] == table[i],
{
}

/// Puts `value` at index `num` of `vec`. An entry already there is
/// overwritten and the length stays; otherwise the table grows to `num + 1`
/// entries and the gap before `num` is filled with default values.
pub fn add_ref<T: Default>(vec: &mut Vec<T>, value: T, num: usize)
    ensures
        final(vec)@.len() == if num < old(vec)@.len() {
            old(vec)@.len() as int
        } else {
            num + 1
        },
        final(vec)@[num as int] == value,
        forall|i: int| 0 <= i < old(vec)@.len() && i != num ==> final(vec)@[i] == old(vec)@[i],
        forall|i: int|
            old(vec)@.len() <= i < num ==> call_ensures(T::default, (), #[trigger] final(vec)@[i]),
{
    if num < vec.len() {
        vec[num] = value;
    } else {
        while vec.len() < num
            invariant
                old(vec)@.len() <= vec@.len() <= num,
                forall|i: int| 0 <= i < old(vec)@.len() ==> vec@[i] == old(vec)@[i],
                forall|i: int|
                    old(vec)@.len() <= i < vec@.len() ==> call_ensures(
                        T::default,
                        (),
                        #[trigger] vec@[i],
                    ),
            decreases num - vec.len(),
        {
            vec.push(T::default());
        }
        vec.push(value);
    }
}

/// What `add_ref` does, seen through the views of the entries: a dense
/// insertion whose blank is the view of the default value.
pub proof fn lemma_add_ref_views<T: View + Default>(
    before: Seq<T>,
    after: Seq<T>,
    value: T,
    num: int,
    blank: T::V,
)
    requires
        0 <= num,
        after.len() == if num < before.len() {
            before.len() as int
        } else {
            num + 1
        },
        after[num] == value,
        forall|i: int| 0 <= i < before.len() && i != num ==> after[i] == before[i],
        forall|i: int|
            before.len() <= i < num ==> call_ensures(T::default, (), #[trigger] after[i]),
        forall|x: T| call_ensures(T::default, (), x) ==> #[trigger] x@ == blank,
    ensures
        views(after) == dense_insert(views(before), num, value@, blank),
{
    assert(views(after) =~= dense_insert(views(before), num, value@, blank));
}

/// An identifier, a name and the index of the entry.
pub open spec fn identified_fields() -> Seq<FieldKind> {
    seq![FieldKind::Uuid, FieldKind::Text, FieldKind::Number]
}

/// A name and the index of the entry.
pub open spec fn named_fields() -> Seq<FieldKind> {
    seq![FieldKind::Text, FieldKind::Number]
}

/// Two numbers: a port and the index of the entry, or two reserved numbers.
pub open spec fn number_fields() -> Seq<FieldKind> {
    seq![FieldKind::Number, FieldKind::Number]
}

/// A value of a data separator: the value as an object, the index of the
/// separator and the index of the value.
pub open spec fn value_fields() -> Seq<FieldKind> {
    seq![FieldKind::Object, FieldKind::Number, FieldKind::Number]
}

/// An object and a number, both reserved.
pub open spec fn reserved_fields() -> Seq<FieldKind> {
    seq![FieldKind::Object, FieldKind::Number]
}

/// The tags that the dictionary knows.
pub open spec fn is_known_tag(tag: usize) -> bool {
    1 <= tag <= 13
}

/// The fields that follow a known tag of a dictionary record.
pub open spec fn reference_fields(tag: usize) -> Seq<FieldKind> {
    if tag == 1 || tag == 5 || tag == 9 {
        identified_fields()
    } else if tag == 2 || tag == 3 || tag == 4 || tag == 6 {
        named_fields()
    } else if tag == 7 || tag == 8 || tag == 13 {
        number_fields()
    } else if tag == 10 {
        value_fields()
    } else if tag == 11 || tag == 12 {
        reserved_fields()
    } else {
        Seq::empty()
    }
}

/// A dictionary record: its tag and the values of its fields.
pub struct Entry {
    pub tag: usize,
    pub values: Seq<FieldValue>,
}

/// The rest of a record whose tag has been read, the cursor at `pos` behind
/// the tag's terminator. A known tag is followed by the fields it calls
/// for. A record with an unknown tag is passed over whole, whatever it
/// holds: it is over if the tag's terminator was its closing brace, and
/// else its fields are scanned up to the brace that closes it. Such a
/// record has no values.
pub open spec fn scan_entry(s: Seq<u8>, pos: int, tag: usize) -> Step<Seq<FieldValue>> {
    if is_known_tag(tag) {
        scan_record(s, pos, reference_fields(tag))
    } else if pos >= 1 && s[pos - 1] == CLOSE {
        done(Seq::empty(), pos)
    } else {
        let rest = object_body(s, pos);
        match rest.result {
            Ok(_) => done(Seq::empty(), rest.pos),
            Err(e) => fail(e, rest.pos),
        }
    }
}

/// Where the scan of the rest of a record leaves the cursor.
pub proof fn lemma_entry_bounds(s: Seq<u8>, pos: int, tag: usize)
    requires
        0 <= pos <= s.len(),
    ensures
        pos <= scan_entry(s, pos, tag).pos <= s.len(),
{
    lemma_fields_bounds(s, pos, reference_fields(tag), 0, Seq::empty());
    lemma_object_body_bounds(s, pos);
}

/// Dictionary record: bytes before the first `{` are skipped, the tag is
/// read, and then what the tag calls for.
pub open spec fn scan_reference(s: Seq<u8>, pos: int) -> Step<Entry> {
    let open = find_byte(s, pos, OPEN);
    if open >= s.len() {
        fail(ParseError::End, s.len() as int)
    } else {
        let tag = scan_number(s, open + 1);
        match tag.result {
            Err(e) => fail(e, tag.pos),
            Ok(t) => {
                let body = scan_entry(s, tag.pos, t);
                match body.result {
                    Err(e) => fail(e, body.pos),
                    Ok(values) => done(Entry { tag: t, values }, body.pos),
                }
            },
        }
    }
}

/// Where the scan of a dictionary record leaves the cursor: inside the
/// window, and past its start unless the window ran out.
pub proof fn lemma_reference_bounds(s: Seq<u8>, pos: int)
    requires
        0 <= pos <= s.len(),
    ensures
        pos <= scan_reference(s, pos).pos <= s.len(),
        scan_reference(s, pos).result != Err::<Entry, ParseError>(ParseError::End) ==> pos
            < scan_reference(s, pos).pos,
{
    lemma_find_either(s, pos, OPEN, OPEN);
    let open = find_byte(s, pos, OPEN);
    if open < s.len() {
        lemma_number_bounds(s, open + 1);
        let tag = scan_number(s, open + 1);
        if let Ok(t) = tag.result {
            lemma_entry_bounds(s, tag.pos, t);
        }
    }
}

/// The tables after a record has been taken in.
pub open spec fn apply_entry(t: Tables, e: Entry) -> Tables {
    let v = e.values;
    if e.tag == 1 {
        Tables {
            users: dense_insert(
                t.users,
                v[2].number() as int,
                UserModel { id: v[0].uuid(), name: quoted_text(v[1].text()) },
                blank_user(),
            ),
            ..t
        }
    } else if e.tag == 2 {
        Tables {
            computers: dense_insert(
                t.computers,
                v[1].number() as int,
                quoted_text(v[0].text()),
                Seq::empty(),
            ),
            ..t
        }
    } else if e.tag == 3 {
        Tables {
            applications: dense_insert(
                t.applications,
                v[1].number() as int,
                quoted_text(v[0].text()),
                Seq::empty(),
            ),
            ..t
        }
    } else if e.tag == 4 {
        Tables {
            events: dense_insert(
                t.events,
                v[1].number() as int,
                quoted_text(v[0].text()),
                Seq::empty(),
            ),
            ..t
        }
    } else if e.tag == 5 {
        Tables {
            metadata: dense_insert(
                t.metadata,
                v[2].number() as int,
                MetadataModel { id: v[0].uuid(), name: quoted_text(v[1].text()) },
                blank_metadata(),
            ),
            ..t
        }
    } else if e.tag == 6 {
        Tables {
            worker_servers: dense_insert(
                t.worker_servers,
                v[1].number() as int,
                quoted_text(v[0].text()),
                Seq::empty(),
            ),
            ..t
        }
    } else if e.tag == 7 {
        Tables { ports: dense_insert(t.ports, v[1].number() as int, v[0].number() as u32, 0), ..t }
    } else if e.tag == 8 {
        Tables {
            sync_ports: dense_insert(t.sync_ports, v[1].number() as int, v[0].number() as u32, 0),
            ..t
        }
    } else if e.tag == 9 {
        Tables {
            data_separation: dense_insert(
                t.data_separation,
                v[2].number() as int,
                DataSeparationModel {
                    id: v[0].uuid(),
                    name: quoted_text(v[1].text()),
                    values: Seq::empty(),
                },
                blank_data_separation(),
            ),
            ..t
        }
    } else if e.tag == 10 && v[1].number() < t.data_separation.len() {
        let owner = t.data_separation[v[1].number() as int];
        Tables {
            data_separation: t.data_separation.update(
                v[1].number() as int,
                DataSeparationModel {
                    values: dense_insert(
                        owner.values,
                        v[2].number() as int,
                        decode_utf8(v[0].object()),
                        Seq::empty(),
                    ),
                    ..owner
                },
            ),
            ..t
        }
    } else {
        t
    }
}

/// A record with an unknown tag changes no table, and neither does one
/// with a reserved tag.
pub proof fn lemma_unknown_entry_changes_nothing(t: Tables, e: Entry)
    requires
        !is_known_tag(e.tag) || e.tag == 11 || e.tag == 12 || e.tag == 13,
    ensures
        apply_entry(t, e) == t,
{
}

/// A record with an unknown tag is passed over whole: where the tag's
/// terminator is not the closing brace, the scan ends where the scan of the
/// record's fields ends, behind the brace that closes the record, and fails
/// as that scan fails.
pub proof fn lemma_unknown_entry_spans_record(s: Seq<u8>, pos: int, tag: usize)
    requires
        1 <= pos <= s.len(),
        !is_known_tag(tag),
        s[pos - 1] != CLOSE,
    ensures
        scan_entry(s, pos, tag).pos == object_body(s, pos).pos,
        scan_entry(s, pos, tag).result is Ok <==> object_body(s, pos).result is Ok,
        scan_entry(s, pos, tag).result is Ok ==> pos < scan_entry(s, pos, tag).pos && s[scan_entry(
            s,
            pos,
            tag,
        ).pos - 1] == CLOSE,
        scan_entry(s, pos, tag).result matches Err(e) ==> object_body(s, pos).result == Err::<
            (),
            ParseError,
        >(e),
{
    lemma_object_body_bounds(s, pos);
}

/// True when no table of `after` is shorter than it is in `before`.
pub open spec fn no_table_shrank(before: Tables, after: Tables) -> bool {
    &&& before.users.len() <= after.users.len()
    &&& before.computers.len() <= after.computers.len()
    &&& before.applications.len() <= after.applications.len()
    &&& before.events.len() <= after.events.len()
    &&& before.metadata.len() <= after.metadata.len()
    &&& before.worker_servers.len() <= after.worker_servers.len()
    &&& before.ports.len() <= after.ports.len()
    &&& before.sync_ports.len() <= after.sync_ports.len()
    &&& before.data_separation.len() <= after.data_separation.len()
}

/// Taking in a record never shrinks a table.
pub proof fn lemma_entry_never_shrinks(t: Tables, e: Entry)
    ensures
        no_table_shrank(t, apply_entry(t, e)),
{
}

/// Result of a pass over a window of dictionary records.
pub struct Fill {
    /// The tables after the pass.
    pub tables: Tables,
    /// Offset of the first byte that belongs to no record taken in.
    pub consumed: int,
}

/// Takes in every record from `pos` on. A malformed record is passed over:
/// decoding starts again after the next carriage return. The pass stops
/// where a record runs past the end of the window, or where a malformed
/// record is followed by no carriage return; it then resumes at the start of
/// that record.
pub open spec fn reference_pass(s: Seq<u8>, pos: int, t: Tables) -> Fill
    decreases s.len() - pos,
{
    let r = scan_reference(s, pos);
    match r.result {
        Ok(entry) => {
            if pos < r.pos <= s.len() {
                reference_pass(s, r.pos, apply_entry(t, entry))
            } else {
                Fill { tables: t, consumed: pos }
            }
        },
        Err(ParseError::End) => Fill { tables: t, consumed: pos },
        Err(ParseError::InvalidFormat) => {
            let cr = find_byte(s, r.pos, CR);
            if cr < pos || cr >= s.len() {
                Fill { tables: t, consumed: pos }
            } else {
                reference_pass(s, cr + 1, t)
            }
        },
    }
}

/// A pass never shrinks a table.
pub proof fn lemma_pass_never_shrinks(s: Seq<u8>, pos: int, t: Tables)
    ensures
        no_table_shrank(t, reference_pass(s, pos, t).tables),
    decreases s.len() - pos,
{
    let r = scan_reference(s, pos);
    match r.result {
        Ok(entry) => {
            if pos < r.pos <= s.len() {
                lemma_entry_never_shrinks(t, entry);
                lemma_pass_never_shrinks(s, r.pos, apply_entry(t, entry));
            }
        },
        Err(ParseError::End) => {},
        Err(ParseError::InvalidFormat) => {
            let cr = find_byte(s, r.pos, CR);
            if !(cr < pos || cr >= s.len()) {
                lemma_pass_never_shrinks(s, cr + 1, t);
            }
        },
    }
}

/// The rest of a record that was decoded or refused is decoded or refused
/// alike in a longer window.
pub proof fn lemma_entry_grows(s: Seq<u8>, t: Seq<u8>, pos: int, tag: usize)
    requires
        begins_with(t, s),
        0 <= pos <= s.len(),
        settled(scan_entry(s, pos, tag)),
    ensures
        scan_entry(t, pos, tag) == scan_entry(s, pos, tag),
{
    if is_known_tag(tag) {
        lemma_fields_grow(s, t, pos, reference_fields(tag), 0, Seq::empty());
    } else {
        if pos >= 1 {
            assert(s[pos - 1] == t[pos - 1]);
        }
        if !(pos >= 1 && s[pos - 1] == CLOSE) {
            lemma_object_body_grows(s, t, pos);
        }
    }
}

/// Decoding the rest of a record follows the window when bytes before it
/// are dropped in front.
pub proof fn lemma_entry_slides(t: Seq<u8>, k: int, pos: int, tag: usize)
    requires
        0 <= k < pos <= t.len(),
    ensures
        scan_entry(t, pos, tag) == moved(scan_entry(t.skip(k), pos - k, tag), k),
{
    if is_known_tag(tag) {
        lemma_fields_slide(t, k, pos, reference_fields(tag), 0, Seq::empty());
    } else {
        assert(t.skip(k)[pos - 1 - k] == t[pos - 1]);
        lemma_object_body_slides(t, k, pos);
    }
}

/// A dictionary record that was decoded or refused is decoded or refused
/// alike in a longer window.
pub proof fn lemma_reference_grows(s: Seq<u8>, t: Seq<u8>, pos: int)
    requires
        begins_with(t, s),
        0 <= pos <= s.len(),
        settled(scan_reference(s, pos)),
    ensures
        scan_reference(t, pos) == scan_reference(s, pos),
{
    lemma_find_either(s, pos, OPEN, OPEN);
    let open = find_byte(s, pos, OPEN);
    if open < s.len() {
        lemma_find_grows(s, t, pos, OPEN, OPEN);
        lemma_number_bounds(s, open + 1);
        let tag = scan_number(s, open + 1);
        if let Ok(n) = tag.result {
            lemma_number_grows(s, t, open + 1);
            lemma_entry_grows(s, t, tag.pos, n);
        }
    }
}

/// Decoding a dictionary record follows the window when bytes are dropped
/// in front.
pub proof fn lemma_reference_slides(t: Seq<u8>, k: int, pos: int)
    requires
        0 <= k <= pos <= t.len(),
    ensures
        scan_reference(t, pos) == moved(scan_reference(t.skip(k), pos - k), k),
{
    lemma_find_either(t, pos, OPEN, OPEN);
    lemma_find_slides(t, k, pos, OPEN, OPEN);
    let open = find_byte(t, pos, OPEN);
    if open < t.len() {
        lemma_number_bounds(t, open + 1);
        lemma_number_slides(t, k, open + 1);
        let tag = scan_number(t, open + 1);
        if let Ok(n) = tag.result {
            lemma_entry_slides(t, k, tag.pos, n);
        }
    }
}

/// A pass over a longer window comes to what a pass comes to that starts
/// where the pass over the shorter window stopped, with the tables that
/// pass left.
pub proof fn lemma_fill_grows(s: Seq<u8>, t: Seq<u8>, pos: int, tables: Tables)
    requires
        begins_with(t, s),
        0 <= pos <= s.len(),
    ensures
        pos <= reference_pass(s, pos, tables).consumed <= s.len(),
        reference_pass(t, pos, tables) == reference_pass(
            t,
            reference_pass(s, pos, tables).consumed,
            reference_pass(s, pos, tables).tables,
        ),
    decreases s.len() - pos,
{
    lemma_reference_bounds(s, pos);
    let r = scan_reference(s, pos);
    if settled(r) {
        lemma_reference_grows(s, t, pos);
        match r.result {
            Ok(entry) => {
                lemma_fill_grows(s, t, r.pos, apply_entry(tables, entry));
            },
            Err(_) => {
                lemma_find_either(s, r.pos, CR, CR);
                let cr = find_byte(s, r.pos, CR);
                if cr < s.len() {
                    lemma_find_grows(s, t, r.pos, CR, CR);
                    lemma_fill_grows(s, t, cr + 1, tables);
                }
            },
        }
    }
}

/// A pass, seen from a window that holds `k` more bytes in front.
pub open spec fn moved_fill(fill: Fill, k: int) -> Fill {
    Fill { tables: fill.tables, consumed: fill.consumed + k }
}

/// A pass follows the window when bytes are dropped in front.
pub proof fn lemma_fill_slides(t: Seq<u8>, k: int, pos: int, tables: Tables)
    requires
        0 <= k <= pos <= t.len(),
    ensures
        reference_pass(t, pos, tables) == moved_fill(
            reference_pass(t.skip(k), pos - k, tables),
            k,
        ),
    decreases t.len() - pos,
{
    lemma_reference_bounds(t, pos);
    lemma_reference_slides(t, k, pos);
    let r = scan_reference(t, pos);
    match r.result {
        Ok(entry) => {
            lemma_fill_slides(t, k, r.pos, apply_entry(tables, entry));
        },
        Err(ParseError::End) => {},
        Err(ParseError::InvalidFormat) => {
            lemma_find_either(t, r.pos, CR, CR);
            lemma_find_slides(t, k, r.pos, CR, CR);
            let cr = find_byte(t, r.pos, CR);
            if cr < t.len() {
                lemma_fill_slides(t, k, cr + 1, tables);
            }
        },
    }
}

/// Where the dictionary is cut into chunks does not matter. Take in the
/// first chunk `a`, keep the bytes the pass did not consume, put the second
/// chunk `b` behind them and take that in: the tables are those that one
/// pass over the whole input fills, and as many bytes are consumed.
pub proof fn lemma_chunk_boundary(a: Seq<u8>, b: Seq<u8>, tables: Tables)
    ensures
        ({
            let first = reference_pass(a, 0, tables);
            let second = reference_pass(a.skip(first.consumed) + b, 0, first.tables);
            let whole = reference_pass(a + b, 0, tables);
            &&& 0 <= first.consumed <= a.len()
            &&& whole.tables == second.tables
            &&& whole.consumed == first.consumed + second.consumed
        }),
{
    let t = a + b;
    let first = reference_pass(a, 0, tables);
    assert(begins_with(t, a));
    lemma_fill_grows(a, t, 0, tables);
    lemma_fill_slides(t, first.consumed, first.consumed, first.tables);
    assert(t.skip(first.consumed) =~= a.skip(first.consumed) + b);
}

/// The tables of the dictionary.
pub struct References {
    users: Vec<User>,
    computers: Vec<String>,
    applications: Vec<String>,
    events: Vec<String>,
    metadata: Vec<Metadata>,
    worker_servers: Vec<String>,
    ports: Vec<u32>,
    sync_ports: Vec<u32>,
    data_separation: Vec<DataSeparation>,
}

impl View for References {
    type V = Tables;

    closed spec fn view(&self) -> Tables {
        Tables {
            users: views(self.users@),
            computers: views(self.computers@),
            applications: views(self.applications@),
            events: views(self.events@),
            metadata: views(self.metadata@),
            worker_servers: views(self.worker_servers@),
            ports: self.ports@,
            sync_ports: self.sync_ports@,
            data_separation: views(self.data_separation@),
        }
    }
}

/// Tables without entries.
pub open spec fn empty_tables() -> Tables {
    Tables {
        users: Seq::empty(),
        computers: Seq::empty(),
        applications: Seq::empty(),
        events: Seq::empty(),
        metadata: Seq::empty(),
        worker_servers: Seq::empty(),
        ports: Seq::empty(),
        sync_ports: Seq::empty(),
        data_separation: Seq::empty(),
    }
}

impl Default for References {
    /// A dictionary in which every table is empty.
    fn default() -> (r: References)
        ensures
            r@ == empty_tables(),
    {
        let r = References {
            users: Vec::new(),
            computers: Vec::new(),
            applications: Vec::new(),
            events: Vec::new(),
            metadata: Vec::new(),
            worker_servers: Vec::new(),
            ports: Vec::new(),
            sync_ports: Vec::new(),
            data_separation: Vec::new(),
        };
        assert(r@.users =~= Seq::<UserModel>::empty());
        assert(r@.computers =~= Seq::<Seq<char>>::empty());
        assert(r@.applications =~= Seq::<Seq<char>>::empty());
        assert(r@.events =~= Seq::<Seq<char>>::empty());
        assert(r@.metadata =~= Seq::<MetadataModel>::empty());
        assert(r@.worker_servers =~= Seq::<Seq<char>>::empty());
        assert(r@.data_separation =~= Seq::<DataSeparationModel>::empty());
        r
    }
}

impl References {
    /// Takes in every record of `buffer` that is complete. Returns the offset
    /// at which decoding resumes once more bytes are there.
    pub fn parse_buffer(&mut self, buffer: &[u8]) -> (consumed: usize)
        ensures
            reference_pass(buffer@, 0, old(self)@) == (Fill {
                tables: final(self)@,
                consumed: consumed as int,
            }),
            consumed <= buffer@.len(),
    {
        let mut parser = Parser::new(buffer);
        let ghost s = buffer@;
        loop
            invariant
                parser.window() == s,
                s == buffer@,
                0 <= parser.cursor() <= s.len(),
                reference_pass(s, 0, old(self)@) == reference_pass(s, parser.cursor(), self@),
            decreases s.len() - parser.cursor(),
        {
            let position = parser.position();
            proof {
                lemma_reference_bounds(s, position as int);
            }
            match self.parser_record(&mut parser) {
                Ok(_) => {
                    proof {
                        use_type_invariant(&parser);
                    }
                },
                Err(ParseError::End) => {
                    return position;
                },
                Err(ParseError::InvalidFormat) => {
                    proof {
                        lemma_find_either(s, parser.cursor(), CR, CR);
                    }
                    if parser.skip_to(CR).is_none() {
                        return position;
                    }
                    proof {
                        use_type_invariant(&parser);
                    }
                },
            }
        }
    }

    /// One turn of the chunked driver: a pass over the first `filled` bytes
    /// of `buffer`, then the buffer made ready for the next fill. Returns the
    /// offset at which the next fill starts; the bytes before it are those
    /// the pass did not consume.
    pub fn parse_chunk(&mut self, buffer: &mut Vec<u8>, filled: usize) -> (offset: usize)
        requires
            filled <= old(buffer)@.len(),
        ensures
            ({
                let fill = reference_pass(old(buffer)@.subrange(0, filled as int), 0, old(self)@);
                &&& final(self)@ == fill.tables
                &&& 0 <= fill.consumed <= filled
                &&& offset == filled - fill.consumed
                &&& final(buffer)@.subrange(0, offset as int) == old(buffer)@.subrange(
                    fill.consumed,
                    filled as int,
                )
                &&& final(buffer)@.len() == if fill.consumed == 0 && filled == old(
                    buffer,
                )@.len() {
                    2 * old(buffer)@.len()
                } else {
                    old(buffer)@.len()
                }
            }),
    {
        let consumed = self.parse_buffer(slice_subrange(buffer.as_slice(), 0, filled));
        slide(buffer, filled, consumed)
    }

    /// Reads an identifier, a name and an index.
    fn read_identified(parser: &mut Parser) -> (r: ParseResult<(u128, String, usize)>)
        ensures
            final(parser).follows(
                old(parser),
                scan_record(old(parser).window(), old(parser).cursor(), identified_fields()),
            ),
            match r {
                Ok(got) => {
                    &&& scan_record(
                        old(parser).window(),
                        old(parser).cursor(),
                        identified_fields(),
                    ).result matches Ok(values)
                    &&& values[0].uuid() == got.0
                    &&& quoted_text(values[1].text()) == got.1@
                    &&& values[2].number() == got.2
                },
                Err(e) => scan_record(
                    old(parser).window(),
                    old(parser).cursor(),
                    identified_fields(),
                ).result == Err::<Seq<FieldValue>, ParseError>(e),
            },
    {
        let ghost s = parser.window();
        let ghost kinds = identified_fields();
        let ghost mut acc: Seq<FieldValue> = Seq::empty();
        proof {
            lemma_fields_step(s, parser.cursor(), kinds, 0, acc);
        }
        let id = parser.parse_uuid()?;
        proof {
            acc = acc.push(FieldValue::Uuid(id));
            lemma_fields_step(s, parser.cursor(), kinds, 1, acc);
        }
        let quoted = parser.parse_str()?;
        proof {
            acc = acc.push(FieldValue::Text(quoted@));
            lemma_fields_step(s, parser.cursor(), kinds, 2, acc);
        }
        let num = parser.parse_usize()?;
        proof {
            acc = acc.push(FieldValue::Number(num));
            lemma_fields_end(s, parser.cursor(), kinds, acc);
        }
        Ok((id, into_string(quoted.str()), num))
    }

    /// Reads a name and an index.
    fn read_named(parser: &mut Parser) -> (r: ParseResult<(String, usize)>)
        ensures
            final(parser).follows(
                old(parser),
                scan_record(old(parser).window(), old(parser).cursor(), named_fields()),
            ),
            match r {
                Ok(got) => {
                    &&& scan_record(
                        old(parser).window(),
                        old(parser).cursor(),
                        named_fields(),
                    ).result matches Ok(values)
                    &&& quoted_text(values[0].text()) == got.0@
                    &&& values[1].number() == got.1
                },
                Err(e) => scan_record(
                    old(parser).window(),
                    old(parser).cursor(),
                    named_fields(),
                ).result == Err::<Seq<FieldValue>, ParseError>(e),
            },
    {
        let ghost s = parser.window();
        let ghost kinds = named_fields();
        let ghost mut acc: Seq<FieldValue> = Seq::empty();
        proof {
            lemma_fields_step(s, parser.cursor(), kinds, 0, acc);
        }
        let quoted = parser.parse_str()?;
        proof {
            acc = acc.push(FieldValue::Text(quoted@));
            lemma_fields_step(s, parser.cursor(), kinds, 1, acc);
        }
        let num = parser.parse_usize()?;
        proof {
            acc = acc.push(FieldValue::Number(num));
            lemma_fields_end(s, parser.cursor(), kinds, acc);
        }
        Ok((into_string(quoted.str()), num))
    }

    /// Reads two numbers.
    fn read_numbers(parser: &mut Parser) -> (r: ParseResult<(usize, usize)>)
        ensures
            final(parser).follows(
                old(parser),
                scan_record(old(parser).window(), old(parser).cursor(), number_fields()),
            ),
            match r {
                Ok(got) => {
                    &&& scan_record(
                        old(parser).window(),
                        old(parser).cursor(),
                        number_fields(),
                    ).result matches Ok(values)
                    &&& values[0].number() == got.0
                    &&& values[1].number() == got.1
                },
                Err(e) => scan_record(
                    old(parser).window(),
                    old(parser).cursor(),
                    number_fields(),
                ).result == Err::<Seq<FieldValue>, ParseError>(e),
            },
    {
        let ghost s = parser.window();
        let ghost kinds = number_fields();
        let ghost mut acc: Seq<FieldValue> = Seq::empty();
        proof {
            lemma_fields_step(s, parser.cursor(), kinds, 0, acc);
        }
        let first = parser.parse_usize()?;
        proof {
            acc = acc.push(FieldValue::Number(first));
            lemma_fields_step(s, parser.cursor(), kinds, 1, acc);
        }
        let second = parser.parse_usize()?;
        proof {
            acc = acc.push(FieldValue::Number(second));
            lemma_fields_end(s, parser.cursor(), kinds, acc);
        }
        Ok((first, second))
    }

    /// Reads an object, the index of its owner and its own index.
    fn read_value<'a>(parser: &mut Parser<'a>) -> (r: ParseResult<(&'a str, usize, usize)>)
        ensures
            final(parser).follows(
                old(parser),
                scan_record(old(parser).window(), old(parser).cursor(), value_fields()),
            ),
            match r {
                Ok(got) => {
                    &&& scan_record(
                        old(parser).window(),
                        old(parser).cursor(),
                        value_fields(),
                    ).result matches Ok(values)
                    &&& values[0].object() == got.0.spec_bytes()
                    &&& values[1].number() == got.1
                    &&& values[2].number() == got.2
                },
                Err(e) => scan_record(
                    old(parser).window(),
                    old(parser).cursor(),
                    value_fields(),
                ).result == Err::<Seq<FieldValue>, ParseError>(e),
            },
    {
        let ghost s = parser.window();
        let ghost kinds = value_fields();
        let ghost mut acc: Seq<FieldValue> = Seq::empty();
        proof {
            lemma_fields_step(s, parser.cursor(), kinds, 0, acc);
        }
        let object = parser.parse_object()?;
        proof {
            acc = acc.push(FieldValue::Object(object.spec_bytes()));
            lemma_fields_step(s, parser.cursor(), kinds, 1, acc);
        }
        let owner = parser.parse_usize()?;
        proof {
            acc = acc.push(FieldValue::Number(owner));
            lemma_fields_step(s, parser.cursor(), kinds, 2, acc);
        }
        let num = parser.parse_usize()?;
        proof {
            acc = acc.push(FieldValue::Number(num));
            lemma_fields_end(s, parser.cursor(), kinds, acc);
        }
        Ok((object, owner, num))
    }

    /// Reads an object and a number.
    fn read_reserved(parser: &mut Parser) -> (r: ParseResult<usize>)
        ensures
            final(parser).follows(
                old(parser),
                scan_record(old(parser).window(), old(parser).cursor(), reserved_fields()),
            ),
            match r {
                Ok(got) => {
                    &&& scan_record(
                        old(parser).window(),
                        old(parser).cursor(),
                        reserved_fields(),
                    ).result matches Ok(values)
                    &&& values[1].number() == got
                },
                Err(e) => scan_record(
                    old(parser).window(),
                    old(parser).cursor(),
                    reserved_fields(),
                ).result == Err::<Seq<FieldValue>, ParseError>(e),
            },
    {
        let ghost s = parser.window();
        let ghost kinds = reserved_fields();
        let ghost mut acc: Seq<FieldValue> = Seq::empty();
        proof {
            lemma_fields_step(s, parser.cursor(), kinds, 0, acc);
        }
        let object = parser.parse_object()?;
        proof {
            acc = acc.push(FieldValue::Object(object.spec_bytes()));
            lemma_fields_step(s, parser.cursor(), kinds, 1, acc);
        }
        let num = parser.parse_usize()?;
        proof {
            acc = acc.push(FieldValue::Number(num));
            lemma_fields_end(s, parser.cursor(), kinds, acc);
        }
        Ok(num)
    }

    /// Decodes what follows tag `tag` and takes the record into the tables.
    /// A record with an unknown tag is passed over whole.
    #[verifier::rlimit(40)]
    fn take_entry(&mut self, parser: &mut Parser, tag: usize) -> (r: ParseResult<()>)
        requires
            old(parser).cursor() > 0,
        ensures
            final(parser).follows(
                old(parser),
                scan_entry(old(parser).window(), old(parser).cursor(), tag),
            ),
            match r {
                Ok(_) => {
                    &&& scan_entry(
                        old(parser).window(),
                        old(parser).cursor(),
                        tag,
                    ).result matches Ok(values)
                    &&& final(self)@ == apply_entry(old(self)@, Entry { tag, values })
                },
                Err(e) => {
                    &&& scan_entry(old(parser).window(), old(parser).cursor(), tag).result
                        == Err::<Seq<FieldValue>, ParseError>(e)
                    &&& final(self)@ == old(self)@
                },
            },
    {
        let ghost s = parser.window();
        let ghost before = self@;
        if tag == 1 {
            let (id, name, num) = Self::read_identified(parser)?;
            let ghost old_table = self.users@;
            let entry = User { id, name };
            add_ref(&mut self.users, entry, num);
            proof {
                lemma_add_ref_views(old_table, self.users@, entry, num as int, blank_user());
            }
        } else if tag == 2 {
            let (name, num) = Self::read_named(parser)?;
            let ghost old_table = self.computers@;
            add_ref(&mut self.computers, name, num);
            proof {
                lemma_add_ref_views(
                    old_table,
                    self.computers@,
                    name,
                    num as int,
                    Seq::<char>::empty(),
                );
            }
        } else if tag == 3 {
            let (name, num) = Self::read_named(parser)?;
            let ghost old_table = self.applications@;
            add_ref(&mut self.applications, name, num);
            proof {
                lemma_add_ref_views(
                    old_table,
                    self.applications@,
                    name,
                    num as int,
                    Seq::<char>::empty(),
                );
            }
        } else if tag == 4 {
            let (name, num) = Self::read_named(parser)?;
            let ghost old_table = self.events@;
            add_ref(&mut self.events, name, num);
            proof {
                lemma_add_ref_views(
                    old_table,
                    self.events@,
                    name,
                    num as int,
                    Seq::<char>::empty(),
                );
            }
        } else if tag == 5 {
            let (id, name, num) = Self::read_identified(parser)?;
            let ghost old_table = self.metadata@;
            let entry = Metadata { id, name };
            add_ref(&mut self.metadata, entry, num);
            proof {
                lemma_add_ref_views(old_table, self.metadata@, entry, num as int, blank_metadata());
            }
        } else if tag == 6 {
            let (name, num) = Self::read_named(parser)?;
            let ghost old_table = self.worker_servers@;
            add_ref(&mut self.worker_servers, name, num);
            proof {
                lemma_add_ref_views(
                    old_table,
                    self.worker_servers@,
                    name,
                    num as int,
                    Seq::<char>::empty(),
                );
            }
        } else if tag == 7 {
            let (wide, num) = Self::read_numbers(parser)?;
            let port = #[verifier::truncate] (wide as u32);
            add_ref(&mut self.ports, port, num);
            proof {
                assert(self.ports@ =~= dense_insert(before.ports, num as int, port, 0u32));
            }
        } else if tag == 8 {
            let (wide, num) = Self::read_numbers(parser)?;
            let port = #[verifier::truncate] (wide as u32);
            add_ref(&mut self.sync_ports, port, num);
            proof {
                assert(self.sync_ports@ =~= dense_insert(
                    before.sync_ports,
                    num as int,
                    port,
                    0u32,
                ));
            }
        } else if tag == 9 {
            let (id, name, num) = Self::read_identified(parser)?;
            let ghost old_table = self.data_separation@;
            let entry = DataSeparation { id, name, values: Vec::new() };
            proof {
                assert(entry@.values =~= Seq::<Seq<char>>::empty());
            }
            add_ref(&mut self.data_separation, entry, num);
            proof {
                lemma_add_ref_views(
                    old_table,
                    self.data_separation@,
                    entry,
                    num as int,
                    blank_data_separation(),
                );
            }
        } else if tag == 10 {
            let (object, owner, num) = Self::read_value(parser)?;
            if owner < self.data_separation.len() {
                let value = object.to_owned();
                let ghost old_table = self.data_separation@;
                let ghost old_values = self.data_separation@[owner as int].values@;
                add_ref(&mut self.data_separation[owner].values, value, num);
                proof {
                    vstd::utf8::encode_utf8_decode_utf8(object@);
                    lemma_add_ref_views(
                        old_values,
                        self.data_separation@[owner as int].values@,
                        value,
                        num as int,
                        Seq::<char>::empty(),
                    );
                    assert(views(self.data_separation@) =~= views(old_table).update(
                        owner as int,
                        self.data_separation@[owner as int]@,
                    ));
                }
            }
        } else if tag == 11 || tag == 12 {
            Self::read_reserved(parser)?;
        } else if tag == 13 {
            Self::read_numbers(parser)?;
        } else if parser.current() != CLOSE {
            parser.skip_fields()?;
        }
        Ok(())
    }

    /// Decodes one dictionary record from the cursor on and takes it into
    /// the tables. A record that fails to decode leaves the tables as they
    /// were.
    pub fn parser_record(&mut self, parser: &mut Parser) -> (r: ParseResult<()>)
        ensures
            final(parser).follows(
                old(parser),
                scan_reference(old(parser).window(), old(parser).cursor()),
            ),
            match r {
                Ok(_) => {
                    &&& scan_reference(
                        old(parser).window(),
                        old(parser).cursor(),
                    ).result matches Ok(entry)
                    &&& final(self)@ == apply_entry(old(self)@, entry)
                },
                Err(e) => {
                    &&& scan_reference(old(parser).window(), old(parser).cursor()).result
                        == Err::<Entry, ParseError>(e)
                    &&& final(self)@ == old(self)@
                },
            },
    {
        parser.seek(OPEN)?;
        proof {
            use_type_invariant(&*parser);
            lemma_number_bounds(parser.window(), parser.cursor());
        }
        let tag = parser.parse_usize()?;
        self.take_entry(parser, tag)
    }

    /// The table of users.
    pub fn users(&self) -> (r: &[User])
        ensures
            views(r@) == self@.users,
    {
        self.users.as_slice()
    }

    /// The table of computer names.
    pub fn computers(&self) -> (r: &[String])
        ensures
            views(r@) == self@.computers,
    {
        self.computers.as_slice()
    }

    /// The table of application names.
    pub fn applications(&self) -> (r: &[String])
        ensures
            views(r@) == self@.applications,
    {
        self.applications.as_slice()
    }

    /// The table of event names.
    pub fn events(&self) -> (r: &[String])
        ensures
            views(r@) == self@.events,
    {
        self.events.as_slice()
    }

    /// The table of metadata objects.
    pub fn metadata(&self) -> (r: &[Metadata])
        ensures
            views(r@) == self@.metadata,
    {
        self.metadata.as_slice()
    }

    /// The table of worker server names.
    pub fn worker_servers(&self) -> (r: &[String])
        ensures
            views(r@) == self@.worker_servers,
    {
        self.worker_servers.as_slice()
    }

    /// The table of data separators.
    pub fn data_separation(&self) -> (r: &[DataSeparation])
        ensures
            views(r@) == self@.data_separation,
    {
        self.data_separation.as_slice()
    }

    /// The table of ports.
    pub fn ports(&self) -> (r: &[u32])
        ensures
            r@ == self@.ports,
    {
        self.ports.as_slice()
    }

    /// The table of sync ports.
    pub fn sync_ports(&self) -> (r: &[u32])
        ensures
            r@ == self@.sync_ports,
    {
        self.sync_ports.as_slice()
    }
}

} // verus!
