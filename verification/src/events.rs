//! Period-log records: decoding one event, and one pass over a window.

use crate::calendar::Timestamp;
use crate::grammar::{
    done, fail, find_byte, is_window_range, lemma_find_either, Quoted, Step, CR, OPEN, ZERO,
};
use crate::parser::{LogStr, ParseError, ParseResult, Parser};
use crate::references::{Metadata, References, User};
use crate::schema::{
    has_kind, lemma_fields_bounds, lemma_fields_end, lemma_fields_step, lemma_fields_values,
    scan_fields, scan_level, scan_record, scan_status, scan_timestamp, two_digits, FieldKind,
    FieldValue,
};
use crate::stream::slide;
use crate::text::quoted_text;
use crate::window::{
    begins_with, lemma_fields_grow, lemma_fields_slide, lemma_find_grows, lemma_find_slides, moved,
    settled,
};
use std::borrow::Cow;
use vstd::prelude::*;
use vstd::slice::slice_subrange;
use vstd::string::StringSliceAdditionalSpecFns;

verus! {

/// State of the transaction an event belongs to.
#[derive(Debug, PartialEq, Eq, Clone, Copy, Structural)]
pub enum TransactionStatus {
    Unfinished,
    NotApplicable,
    Committed,
    RolledBack,
}

/// Severity of an event.
#[derive(Debug, PartialEq, Eq, Clone, Copy, Structural)]
pub enum EventLogLevel {
    Error,
    Information,
    Note,
    Warning,
}

/// What an event holds, as plain values.
pub struct EventModel {
    pub date: Timestamp,
    pub transaction_status: TransactionStatus,
    pub transaction_data: Seq<u8>,
    pub user_id: usize,
    pub computer_id: usize,
    pub application_id: usize,
    pub connection: usize,
    pub event_id: usize,
    pub log_level: EventLogLevel,
    pub comment: Quoted,
    pub metadata_id: usize,
    pub data: Seq<u8>,
    pub data_presentation: Quoted,
    pub worker_server_id: usize,
    pub port_id: usize,
    pub sync_port_id: usize,
    pub session: usize,
    pub unknown1: usize,
    pub unknown2: Seq<u8>,
}

/// One decoded period-log record. Its strings borrow from the window it was
/// decoded from; its ids are plain integers, resolved against the reference
/// tables only on request.
pub struct Event<'a> {
    date: Timestamp,
    transaction_status: TransactionStatus,
    transaction_data: &'a str,
    user_id: usize,
    computer_id: usize,
    application_id: usize,
    connection: usize,
    event_id: usize,
    log_level: EventLogLevel,
    comment: LogStr<'a>,
    metadata_id: usize,
    data: &'a str,
    data_presentation: LogStr<'a>,
    worker_server_id: usize,
    port_id: usize,
    sync_port_id: usize,
    session: usize,
    unknown1: usize,
    unknown2: &'a str,
}

impl<'a> View for Event<'a> {
    type V = EventModel;

    closed spec fn view(&self) -> EventModel {
        EventModel {
            date: self.date,
            transaction_status: self.transaction_status,
            transaction_data: self.transaction_data.spec_bytes(),
            user_id: self.user_id,
            computer_id: self.computer_id,
            application_id: self.application_id,
            connection: self.connection,
            event_id: self.event_id,
            log_level: self.log_level,
            comment: self.comment@,
            metadata_id: self.metadata_id,
            data: self.data.spec_bytes(),
            data_presentation: self.data_presentation@,
            worker_server_id: self.worker_server_id,
            port_id: self.port_id,
            sync_port_id: self.sync_port_id,
            session: self.session,
            unknown1: self.unknown1,
            unknown2: self.unknown2.spec_bytes(),
        }
    }
}

/// Kind of the field at offset `k` of an event record.
pub open spec fn event_field(k: int) -> FieldKind {
    if k == 0 {
        FieldKind::Timestamp
    } else if k == 1 {
        FieldKind::Status
    } else if k == 2 || k == 11 || k == 18 {
        FieldKind::Object
    } else if k == 8 {
        FieldKind::Level
    } else if k == 9 || k == 12 {
        FieldKind::Text
    } else {
        FieldKind::Number
    }
}

/// The nineteen fields of an event record, in order.
pub open spec fn event_fields() -> Seq<FieldKind> {
    Seq::new(19, |k: int| event_field(k))
}

/// The event that nineteen field values make up.
pub open spec fn event_of(values: Seq<FieldValue>) -> EventModel {
    EventModel {
        date: values[0].timestamp(),
        transaction_status: values[1].status(),
        transaction_data: values[2].object(),
        user_id: values[3].number(),
        computer_id: values[4].number(),
        application_id: values[5].number(),
        connection: values[6].number(),
        event_id: values[7].number(),
        log_level: values[8].level(),
        comment: values[9].text(),
        metadata_id: values[10].number(),
        data: values[11].object(),
        data_presentation: values[12].text(),
        worker_server_id: values[13].number(),
        port_id: values[14].number(),
        sync_port_id: values[15].number(),
        session: values[16].number(),
        unknown1: values[17].number(),
        unknown2: values[18].object(),
    }
}

/// Event record: bytes before the first `{` are skipped, then the nineteen
/// fields are scanned in order.
pub open spec fn scan_event(s: Seq<u8>, pos: int) -> Step<EventModel> {
    let open = find_byte(s, pos, OPEN);
    if open >= s.len() {
        fail(ParseError::End, s.len() as int)
    } else {
        let body = scan_record(s, open + 1, event_fields());
        match body.result {
            Err(e) => fail(e, body.pos),
            Ok(values) => done(event_of(values), body.pos),
        }
    }
}

/// Where the scan of an event leaves the cursor: inside the window, and
/// past its start unless the window ran out.
pub proof fn lemma_event_bounds(s: Seq<u8>, pos: int)
    requires
        0 <= pos <= s.len(),
    ensures
        pos <= scan_event(s, pos).pos <= s.len(),
        scan_event(s, pos).result != Err::<EventModel, ParseError>(ParseError::End) ==> pos
            < scan_event(s, pos).pos,
{
    lemma_find_either(s, pos, OPEN, OPEN);
    let open = find_byte(s, pos, OPEN);
    if open < s.len() {
        lemma_fields_bounds(s, open + 1, event_fields(), 0, Seq::empty());
    }
}

/// The three objects and the two quoted strings of a decoded event are
/// bytes of the window, untouched: written out again they give the bytes
/// they were decoded from. Its date is a moment that the calendar has.
pub proof fn lemma_event_values(s: Seq<u8>, pos: int)
    requires
        0 <= pos <= s.len(),
    ensures
        scan_event(s, pos).result matches Ok(event) ==> {
            &&& event.date.well_formed()
            &&& is_window_range(s, event.transaction_data)
            &&& is_window_range(s, event.data)
            &&& is_window_range(s, event.unknown2)
            &&& is_window_range(s, event.comment.content)
            &&& is_window_range(s, event.data_presentation.content)
        },
{
    lemma_find_either(s, pos, OPEN, OPEN);
    let open = find_byte(s, pos, OPEN);
    if open < s.len() {
        lemma_fields_values(s, open + 1, event_fields(), 0, Seq::empty());
        if let Ok(values) = scan_record(s, open + 1, event_fields()).result {
            assert(has_kind(values[0], event_fields()[0]));
            assert(has_kind(values[2], event_fields()[2]));
            assert(has_kind(values[9], event_fields()[9]));
            assert(has_kind(values[11], event_fields()[11]));
            assert(has_kind(values[12], event_fields()[12]));
            assert(has_kind(values[18], event_fields()[18]));
        }
    }
}

/// One step of a decoding pass.
pub enum PullModel {
    /// A record was decoded; the cursor rests at `next`.
    Record { event: EventModel, next: int },
    /// The pass is over with the cursor at `at`; decoding resumes at `resume`
    /// once more bytes are there.
    Stop { resume: int, at: int },
}

/// Decodes the next record from `pos` on. A malformed record is passed
/// over: decoding starts again after the next carriage return. The pass
/// stops where a record runs past the end of the window, or where a
/// malformed record is followed by no carriage return; it then resumes at
/// the start of that record.
pub open spec fn pull_event(s: Seq<u8>, pos: int) -> PullModel
    decreases s.len() - pos,
{
    let r = scan_event(s, pos);
    match r.result {
        Ok(event) => PullModel::Record { event, next: r.pos },
        Err(ParseError::End) => PullModel::Stop { resume: pos, at: r.pos },
        Err(ParseError::InvalidFormat) => {
            let cr = find_byte(s, r.pos, CR);
            if cr < pos || cr >= s.len() {
                PullModel::Stop { resume: pos, at: r.pos }
            } else {
                pull_event(s, cr + 1)
            }
        },
    }
}

/// Result of a decoding pass over a window.
pub struct Pass {
    /// The records decoded, in order.
    pub events: Seq<EventModel>,
    /// Offset of the first byte that belongs to no decoded record.
    pub consumed: int,
}

/// All the records that one pass from `pos` on decodes.
pub open spec fn event_pass(s: Seq<u8>, pos: int) -> Pass
    decreases s.len() - pos,
{
    match pull_event(s, pos) {
        PullModel::Stop { resume, at } => Pass { events: Seq::empty(), consumed: resume },
        PullModel::Record { event, next } => {
            if pos < next <= s.len() {
                let rest = event_pass(s, next);
                Pass { events: seq![event] + rest.events, consumed: rest.consumed }
            } else {
                Pass { events: Seq::empty(), consumed: pos }
            }
        },
    }
}

/// Where a pull leaves off: a record ends inside the window and past the
/// offset the pull started at; a stop resumes between that offset and the
/// end of the window.
pub proof fn lemma_pull_bounds(s: Seq<u8>, pos: int)
    requires
        0 <= pos <= s.len(),
    ensures
        match pull_event(s, pos) {
            PullModel::Record { event, next } => pos < next <= s.len(),
            PullModel::Stop { resume, at } => pos <= resume <= at <= s.len(),
        },
    decreases s.len() - pos,
{
    lemma_event_bounds(s, pos);
    let r = scan_event(s, pos);
    if r.result == Err::<EventModel, ParseError>(ParseError::InvalidFormat) {
        lemma_find_either(s, r.pos, CR, CR);
        let cr = find_byte(s, r.pos, CR);
        if cr < s.len() {
            lemma_pull_bounds(s, cr + 1);
        }
    }
}

/// Bytes that stand before a record and hold no opening brace are passed
/// over: decoding from any of them is decoding from the record's brace, and
/// a pass from any of them yields the records of a pass from there.
pub proof fn lemma_garbage_without_brace(s: Seq<u8>, pos: int, start: int)
    requires
        0 <= pos <= start <= s.len(),
        forall|i: int| pos <= i < start ==> s[i] != OPEN,
    ensures
        scan_event(s, pos) == scan_event(s, start),
        event_pass(s, pos).events == event_pass(s, start).events,
    decreases start - pos,
{
    if pos < start {
        lemma_garbage_without_brace(s, pos + 1, start);
        assert(find_byte(s, pos, OPEN) == find_byte(s, pos + 1, OPEN));
        lemma_pull_bounds(s, pos);
        lemma_pull_bounds(s, pos + 1);
    }
}

/// A malformed record between two well-formed ones costs nothing but
/// itself. Where a record decodes at `pos`, the bytes after it fail to
/// decode as a record, a carriage return follows the point of failure and a
/// record decodes after that carriage return, the pass yields the two
/// records one after the other, nothing for the bytes between them, and
/// goes on behind the second.
pub proof fn lemma_resync(s: Seq<u8>, pos: int)
    requires
        0 <= pos <= s.len(),
        scan_event(s, pos).result is Ok,
        scan_event(s, scan_event(s, pos).pos).result == Err::<EventModel, ParseError>(
            ParseError::InvalidFormat,
        ),
        find_byte(s, scan_event(s, scan_event(s, pos).pos).pos, CR) < s.len(),
        scan_event(
            s,
            find_byte(s, scan_event(s, scan_event(s, pos).pos).pos, CR) + 1,
        ).result is Ok,
    ensures
        ({
            let first = scan_event(s, pos);
            let bad = scan_event(s, first.pos);
            let second = scan_event(s, find_byte(s, bad.pos, CR) + 1);
            let rest = event_pass(s, second.pos);
            &&& event_pass(s, pos).events == seq![first.result->Ok_0, second.result->Ok_0]
                + rest.events
            &&& event_pass(s, pos).consumed == rest.consumed
            &&& second.pos <= rest.consumed
        }),
{
    let first = scan_event(s, pos);
    lemma_event_bounds(s, pos);
    let bad = scan_event(s, first.pos);
    lemma_event_bounds(s, first.pos);
    lemma_find_either(s, bad.pos, CR, CR);
    let cr = find_byte(s, bad.pos, CR);
    let second = scan_event(s, cr + 1);
    lemma_event_bounds(s, cr + 1);
    assert(pull_event(s, pos) == PullModel::Record { event: first.result->Ok_0, next: first.pos });
    assert(pull_event(s, first.pos) == pull_event(s, cr + 1));
    assert(pull_event(s, cr + 1) == PullModel::Record {
        event: second.result->Ok_0,
        next: second.pos,
    });
    let rest = event_pass(s, second.pos);
    lemma_pass_bounds(s, second.pos);
    let middle = event_pass(s, first.pos);
    assert(middle.events =~= seq![second.result->Ok_0] + rest.events);
    assert(middle.consumed == rest.consumed);
    assert(event_pass(s, pos).events =~= seq![first.result->Ok_0, second.result->Ok_0]
        + rest.events);
}

/// A pass stops between the offset it started at and the end of the window.
pub proof fn lemma_pass_bounds(s: Seq<u8>, pos: int)
    requires
        0 <= pos <= s.len(),
    ensures
        pos <= event_pass(s, pos).consumed <= s.len(),
    decreases s.len() - pos,
{
    lemma_pull_bounds(s, pos);
    match pull_event(s, pos) {
        PullModel::Record { event, next } => {
            lemma_pass_bounds(s, next);
        },
        PullModel::Stop { resume, at } => {},
    }
}

/// An event that was decoded or refused is decoded or refused alike in a
/// longer window.
pub proof fn lemma_event_grows(s: Seq<u8>, t: Seq<u8>, pos: int)
    requires
        begins_with(t, s),
        0 <= pos <= s.len(),
        settled(scan_event(s, pos)),
    ensures
        scan_event(t, pos) == scan_event(s, pos),
{
    lemma_find_either(s, pos, OPEN, OPEN);
    let open = find_byte(s, pos, OPEN);
    if open < s.len() {
        lemma_find_grows(s, t, pos, OPEN, OPEN);
        lemma_fields_grow(s, t, open + 1, event_fields(), 0, Seq::empty());
    }
}

/// Decoding an event follows the window when bytes are dropped in front.
pub proof fn lemma_event_slides(t: Seq<u8>, k: int, pos: int)
    requires
        0 <= k <= pos <= t.len(),
    ensures
        scan_event(t, pos) == moved(scan_event(t.skip(k), pos - k), k),
{
    lemma_find_either(t, pos, OPEN, OPEN);
    lemma_find_slides(t, k, pos, OPEN, OPEN);
    let open = find_byte(t, pos, OPEN);
    if open < t.len() {
        lemma_fields_slide(t, k, open + 1, event_fields(), 0, Seq::empty());
    }
}

/// A pull that yielded a record yields it again in a longer window; a pull
/// that stopped goes on, in the longer window, from where it would resume.
pub proof fn lemma_pull_grows(s: Seq<u8>, t: Seq<u8>, pos: int)
    requires
        begins_with(t, s),
        0 <= pos <= s.len(),
    ensures
        match pull_event(s, pos) {
            PullModel::Record { event, next } => pull_event(t, pos) == pull_event(s, pos),
            PullModel::Stop { resume, at } => pos <= resume <= s.len() && pull_event(t, pos)
                == pull_event(t, resume),
        },
    decreases s.len() - pos,
{
    lemma_event_bounds(s, pos);
    let r = scan_event(s, pos);
    if settled(r) {
        lemma_event_grows(s, t, pos);
        if r.result is Err {
            lemma_find_either(s, r.pos, CR, CR);
            let cr = find_byte(s, r.pos, CR);
            if cr < s.len() {
                lemma_find_grows(s, t, r.pos, CR, CR);
                lemma_pull_grows(s, t, cr + 1);
            }
        }
    }
}

/// A pull, seen from a window that holds `k` more bytes in front.
pub open spec fn moved_pull(pull: PullModel, k: int) -> PullModel {
    match pull {
        PullModel::Record { event, next } => PullModel::Record { event, next: next + k },
        PullModel::Stop { resume, at } => PullModel::Stop { resume: resume + k, at: at + k },
    }
}

/// Pulling follows the window when bytes are dropped in front.
pub proof fn lemma_pull_slides(t: Seq<u8>, k: int, pos: int)
    requires
        0 <= k <= pos <= t.len(),
    ensures
        pull_event(t, pos) == moved_pull(pull_event(t.skip(k), pos - k), k),
    decreases t.len() - pos,
{
    lemma_event_bounds(t, pos);
    lemma_event_slides(t, k, pos);
    let r = scan_event(t, pos);
    if r.result == Err::<EventModel, ParseError>(ParseError::InvalidFormat) {
        lemma_find_either(t, r.pos, CR, CR);
        lemma_find_slides(t, k, r.pos, CR, CR);
        let cr = find_byte(t, r.pos, CR);
        if cr < t.len() {
            lemma_pull_slides(t, k, cr + 1);
        }
    }
}

/// A pass over a longer window yields what the pass over the shorter one
/// yielded, and then what a pass yields that starts where the shorter one
/// stopped.
pub proof fn lemma_pass_grows(s: Seq<u8>, t: Seq<u8>, pos: int)
    requires
        begins_with(t, s),
        0 <= pos <= s.len(),
    ensures
        pos <= event_pass(s, pos).consumed <= s.len(),
        event_pass(t, pos).events == event_pass(s, pos).events + event_pass(
            t,
            event_pass(s, pos).consumed,
        ).events,
        event_pass(t, pos).consumed == event_pass(t, event_pass(s, pos).consumed).consumed,
    decreases s.len() - pos,
{
    lemma_pull_bounds(s, pos);
    lemma_pull_grows(s, t, pos);
    match pull_event(s, pos) {
        PullModel::Record { event, next } => {
            lemma_pass_grows(s, t, next);
            let rest = event_pass(s, next);
            let after = event_pass(t, rest.consumed);
            assert(event_pass(t, pos).events =~= (seq![event] + rest.events) + after.events);
        },
        PullModel::Stop { resume, at } => {
            lemma_pull_bounds(t, resume);
            lemma_pull_bounds(t, pos);
            assert(event_pass(t, pos) == event_pass(t, resume));
            assert(event_pass(t, pos).events =~= Seq::<EventModel>::empty() + event_pass(
                t,
                resume,
            ).events);
        },
    }
}

/// A pass, seen from a window that holds `k` more bytes in front.
pub open spec fn moved_pass(pass: Pass, k: int) -> Pass {
    Pass { events: pass.events, consumed: pass.consumed + k }
}

/// A pass follows the window when bytes are dropped in front.
pub proof fn lemma_pass_slides(t: Seq<u8>, k: int, pos: int)
    requires
        0 <= k <= pos <= t.len(),
    ensures
        event_pass(t, pos) == moved_pass(event_pass(t.skip(k), pos - k), k),
    decreases t.len() - pos,
{
    lemma_pull_bounds(t, pos);
    lemma_pull_slides(t, k, pos);
    match pull_event(t, pos) {
        PullModel::Record { event, next } => {
            lemma_pass_slides(t, k, next);
        },
        PullModel::Stop { resume, at } => {},
    }
}

/// Where the input is cut into chunks does not matter. Decode the first
/// chunk `a`, keep the bytes the pass did not consume, put the second chunk
/// `b` behind them and decode again: the records of the two passes, one
/// after the other, are the records that one pass over the whole input
/// decodes, and as many bytes are consumed.
pub proof fn lemma_chunk_boundary(a: Seq<u8>, b: Seq<u8>)
    ensures
        ({
            let first = event_pass(a, 0);
            let second = event_pass(a.skip(first.consumed) + b, 0);
            let whole = event_pass(a + b, 0);
            &&& 0 <= first.consumed <= a.len()
            &&& whole.events == first.events + second.events
            &&& whole.consumed == first.consumed + second.consumed
        }),
{
    let t = a + b;
    let first = event_pass(a, 0);
    assert(begins_with(t, a));
    lemma_pass_grows(a, t, 0);
    lemma_pass_slides(t, first.consumed, first.consumed);
    assert(t.skip(first.consumed) =~= a.skip(first.consumed) + b);
}

/// One step of a decoding pass.
pub enum Pulled<'a> {
    /// The next record.
    Record(Event<'a>),
    /// The pass is over; the offset at which decoding resumes.
    Stop(usize),
}

impl<'a> Event<'a> {
    /// When the event happened.
    pub fn date(&self) -> (r: Timestamp)
        ensures
            r == self@.date,
    {
        self.date
    }

    /// State of the transaction the event belongs to.
    pub fn transaction_status(&self) -> (r: &TransactionStatus)
        ensures
            *r == self@.transaction_status,
    {
        &self.transaction_status
    }

    /// The transaction's own record, undecoded.
    pub fn transaction_data(&self) -> (r: &'a str)
        ensures
            r.spec_bytes() == self@.transaction_data,
    {
        self.transaction_data
    }

    /// Index into the table of users.
    pub fn user_id(&self) -> (r: usize)
        ensures
            r == self@.user_id,
    {
        self.user_id
    }

    /// The user the event names, if the dictionary knows it.
    pub fn user<'refs>(&self, refs: &'refs References) -> (r: Option<&'refs User>)
        ensures
            match r {
                Some(found) => {
                    &&& self@.user_id < refs@.users.len()
                    &&& found@ == refs@.users[self@.user_id as int]
                },
                None => self@.user_id >= refs@.users.len(),
            },
    {
        let table = refs.users();
        if self.user_id < table.len() {
            Some(&table[self.user_id])
        } else {
            None
        }
    }

    /// Index into the table of computers.
    pub fn computer_id(&self) -> (r: usize)
        ensures
            r == self@.computer_id,
    {
        self.computer_id
    }

    /// The name of the computer, if the dictionary knows it.
    pub fn computer<'refs>(&self, refs: &'refs References) -> (r: Option<&'refs str>)
        ensures
            match r {
                Some(found) => {
                    &&& self@.computer_id < refs@.computers.len()
                    &&& found@ == refs@.computers[self@.computer_id as int]
                },
                None => self@.computer_id >= refs@.computers.len(),
            },
    {
        let table = refs.computers();
        if self.computer_id < table.len() {
            Some(table[self.computer_id].as_str())
        } else {
            None
        }
    }

    /// Index into the table of applications.
    pub fn application_id(&self) -> (r: usize)
        ensures
            r == self@.application_id,
    {
        self.application_id
    }

    /// The name of the application, if the dictionary knows it.
    pub fn application<'refs>(&self, refs: &'refs References) -> (r: Option<&'refs str>)
        ensures
            match r {
                Some(found) => {
                    &&& self@.application_id < refs@.applications.len()
                    &&& found@ == refs@.applications[self@.application_id as int]
                },
                None => self@.application_id >= refs@.applications.len(),
            },
    {
        let table = refs.applications();
        if self.application_id < table.len() {
            Some(table[self.application_id].as_str())
        } else {
            None
        }
    }

    /// Connection number; not an index.
    pub fn connection(&self) -> (r: usize)
        ensures
            r == self@.connection,
    {
        self.connection
    }

    /// Index into the table of event names.
    pub fn event_id(&self) -> (r: usize)
        ensures
            r == self@.event_id,
    {
        self.event_id
    }

    /// The name of the event, if the dictionary knows it.
    pub fn event<'refs>(&self, refs: &'refs References) -> (r: Option<&'refs str>)
        ensures
            match r {
                Some(found) => {
                    &&& self@.event_id < refs@.events.len()
                    &&& found@ == refs@.events[self@.event_id as int]
                },
                None => self@.event_id >= refs@.events.len(),
            },
    {
        let table = refs.events();
        if self.event_id < table.len() {
            Some(table[self.event_id].as_str())
        } else {
            None
        }
    }

    /// Severity of the event.
    pub fn log_level(&self) -> (r: &EventLogLevel)
        ensures
            *r == self@.log_level,
    {
        &self.log_level
    }

    /// Free-text comment.
    pub fn comment(&self) -> (r: Cow<'a, str>)
        ensures
            r@ == quoted_text(self@.comment),
    {
        self.comment.str()
    }

    /// Index into the table of metadata names.
    pub fn metadata_id(&self) -> (r: usize)
        ensures
            r == self@.metadata_id,
    {
        self.metadata_id
    }

    /// The metadata object, if the dictionary knows it.
    pub fn metadata<'refs>(&self, refs: &'refs References) -> (r: Option<&'refs Metadata>)
        ensures
            match r {
                Some(found) => {
                    &&& self@.metadata_id < refs@.metadata.len()
                    &&& found@ == refs@.metadata[self@.metadata_id as int]
                },
                None => self@.metadata_id >= refs@.metadata.len(),
            },
    {
        let table = refs.metadata();
        if self.metadata_id < table.len() {
            Some(&table[self.metadata_id])
        } else {
            None
        }
    }

    /// The event's data object, undecoded.
    pub fn data(&self) -> (r: &'a str)
        ensures
            r.spec_bytes() == self@.data,
    {
        self.data
    }

    /// How the data is presented to a reader.
    pub fn data_presentation(&self) -> (r: Cow<'a, str>)
        ensures
            r@ == quoted_text(self@.data_presentation),
    {
        self.data_presentation.str()
    }

    /// Index into the table of worker servers.
    pub fn worker_server_id(&self) -> (r: usize)
        ensures
            r == self@.worker_server_id,
    {
        self.worker_server_id
    }

    /// The name of the worker server, if the dictionary knows it.
    pub fn worker_server<'refs>(&self, refs: &'refs References) -> (r: Option<&'refs str>)
        ensures
            match r {
                Some(found) => {
                    &&& self@.worker_server_id < refs@.worker_servers.len()
                    &&& found@ == refs@.worker_servers[self@.worker_server_id as int]
                },
                None => self@.worker_server_id >= refs@.worker_servers.len(),
            },
    {
        let table = refs.worker_servers();
        if self.worker_server_id < table.len() {
            Some(table[self.worker_server_id].as_str())
        } else {
            None
        }
    }

    /// Index into the table of ports.
    pub fn port_id(&self) -> (r: usize)
        ensures
            r == self@.port_id,
    {
        self.port_id
    }

    /// The port, if the dictionary knows it.
    pub fn port(&self, refs: &References) -> (r: Option<u32>)
        ensures
            match r {
                Some(found) => {
                    &&& self@.port_id < refs@.ports.len()
                    &&& found == refs@.ports[self@.port_id as int]
                },
                None => self@.port_id >= refs@.ports.len(),
            },
    {
        let table = refs.ports();
        if self.port_id < table.len() {
            Some(table[self.port_id])
        } else {
            None
        }
    }

    /// Index into the table of sync ports.
    pub fn sync_port_id(&self) -> (r: usize)
        ensures
            r == self@.sync_port_id,
    {
        self.sync_port_id
    }

    /// The sync port, if the dictionary knows it.
    pub fn sync_port(&self, refs: &References) -> (r: Option<u32>)
        ensures
            match r {
                Some(found) => {
                    &&& self@.sync_port_id < refs@.sync_ports.len()
                    &&& found == refs@.sync_ports[self@.sync_port_id as int]
                },
                None => self@.sync_port_id >= refs@.sync_ports.len(),
            },
    {
        let table = refs.sync_ports();
        if self.sync_port_id < table.len() {
            Some(table[self.sync_port_id])
        } else {
            None
        }
    }

    /// Session number.
    pub fn session(&self) -> (r: usize)
        ensures
            r == self@.session,
    {
        self.session
    }

    /// A trailing number of unknown meaning.
    pub fn unknown1(&self) -> (r: usize)
        ensures
            r == self@.unknown1,
    {
        self.unknown1
    }

    /// A trailing object of unknown meaning, undecoded.
    pub fn unknown2(&self) -> (r: &'a str)
        ensures
            r.spec_bytes() == self@.unknown2,
    {
        self.unknown2
    }

}

/// Reads two bytes as a two-digit group.
fn next2(parser: &mut Parser) -> (r: ParseResult<u32>)
    ensures
        final(parser).window() == old(parser).window(),
        old(parser).cursor() + 2 <= old(parser).window().len() ==> r == Ok::<u32, ParseError>(
            two_digits(old(parser).window(), old(parser).cursor()) as u32,
        ) && final(parser).cursor() == old(parser).cursor() + 2,
        old(parser).cursor() + 2 > old(parser).window().len() ==> r == Err::<u32, ParseError>(
            ParseError::End,
        ) && final(parser).cursor() == old(parser).window().len(),
{
    proof {
        use_type_invariant(&*parser);
    }
    let a = parser.next()?;
    let b = parser.next()?;
    Ok(a.wrapping_sub(ZERO) as u32 * 10 + b.wrapping_sub(ZERO) as u32)
}

/// Decodes a timestamp field: `YYYYMMDDhhmmss` and one separator byte.
/// `InvalidFormat` when the calendar has no such moment.
pub fn parse_datetime(parser: &mut Parser) -> (r: ParseResult<Timestamp>)
    ensures
        final(parser).follows(
            old(parser),
            scan_timestamp(old(parser).window(), old(parser).cursor()),
        ),
        r == scan_timestamp(old(parser).window(), old(parser).cursor()).result,
{
    proof {
        use_type_invariant(&*parser);
    }
    let century = next2(parser)?;
    let years = next2(parser)?;
    let month = next2(parser)?;
    let day = next2(parser)?;
    let hour = next2(parser)?;
    let minute = next2(parser)?;
    let second = next2(parser)?;
    match parser.skip(1) {
        None => {
            return Err(ParseError::End);
        },
        Some(_) => {},
    }
    let year = century * 100 + years;
    let date = Timestamp { year: year as i32, month, day, hour, minute, second };
    if date.is_valid() {
        Ok(date)
    } else {
        Err(ParseError::InvalidFormat)
    }
}

/// Decodes a transaction status field: one of `R`, `N`, `U`, `C`, and one
/// separator byte.
pub fn parse_transaction_status(parser: &mut Parser) -> (r: ParseResult<TransactionStatus>)
    ensures
        final(parser).follows(old(parser), scan_status(old(parser).window(), old(parser).cursor())),
        r == scan_status(old(parser).window(), old(parser).cursor()).result,
{
    let ch = parser.next()?;
    match parser.skip(1) {
        None => {
            return Err(ParseError::End);
        },
        Some(_) => {},
    }
    if ch == 0x52 {
        Ok(TransactionStatus::RolledBack)
    } else if ch == 0x4e {
        Ok(TransactionStatus::NotApplicable)
    } else if ch == 0x55 {
        Ok(TransactionStatus::Unfinished)
    } else if ch == 0x43 {
        Ok(TransactionStatus::Committed)
    } else {
        Err(ParseError::InvalidFormat)
    }
}

/// Decodes a log level field: one of `E`, `I`, `N`, `W`, and one separator
/// byte.
pub fn parse_log_level(parser: &mut Parser) -> (r: ParseResult<EventLogLevel>)
    ensures
        final(parser).follows(old(parser), scan_level(old(parser).window(), old(parser).cursor())),
        r == scan_level(old(parser).window(), old(parser).cursor()).result,
{
    let ch = parser.next()?;
    match parser.skip(1) {
        None => {
            return Err(ParseError::End);
        },
        Some(_) => {},
    }
    if ch == 0x45 {
        Ok(EventLogLevel::Error)
    } else if ch == 0x49 {
        Ok(EventLogLevel::Information)
    } else if ch == 0x4e {
        Ok(EventLogLevel::Note)
    } else if ch == 0x57 {
        Ok(EventLogLevel::Warning)
    } else {
        Err(ParseError::InvalidFormat)
    }
}

/// Decodes one event record from the cursor on.
#[verifier::rlimit(40)]
pub fn parse_record<'a>(parser: &mut Parser<'a>) -> (r: ParseResult<Event<'a>>)
    ensures
        final(parser).follows(old(parser), scan_event(old(parser).window(), old(parser).cursor())),
        match r {
            Ok(event) => scan_event(old(parser).window(), old(parser).cursor()).result == Ok::<
                EventModel,
                ParseError,
            >(event@),
            Err(e) => scan_event(old(parser).window(), old(parser).cursor()).result == Err::<
                EventModel,
                ParseError,
            >(e),
        },
{
    let ghost s = parser.window();
    let ghost kinds = event_fields();
    parser.seek(OPEN)?;
    let ghost body = scan_record(s, parser.cursor(), kinds);
    let ghost mut acc: Seq<FieldValue> = Seq::empty();
    proof {
        lemma_fields_step(s, parser.cursor(), kinds, 0, acc);
    }
    let date = parse_datetime(parser)?;
    proof {
        acc = acc.push(FieldValue::Timestamp(date));
        assert(body == scan_fields(s, parser.cursor(), kinds, 1, acc));
        lemma_fields_step(s, parser.cursor(), kinds, 1, acc);
    }
    let transaction_status = parse_transaction_status(parser)?;
    proof {
        acc = acc.push(FieldValue::Status(transaction_status));
        assert(body == scan_fields(s, parser.cursor(), kinds, 2, acc));
        lemma_fields_step(s, parser.cursor(), kinds, 2, acc);
    }
    let transaction_data = parser.parse_object()?;
    proof {
        acc = acc.push(FieldValue::Object(transaction_data.spec_bytes()));
        assert(body == scan_fields(s, parser.cursor(), kinds, 3, acc));
        lemma_fields_step(s, parser.cursor(), kinds, 3, acc);
    }
    let user_id = parser.parse_usize()?;
    proof {
        acc = acc.push(FieldValue::Number(user_id));
        assert(body == scan_fields(s, parser.cursor(), kinds, 4, acc));
        lemma_fields_step(s, parser.cursor(), kinds, 4, acc);
    }
    let computer_id = parser.parse_usize()?;
    proof {
        acc = acc.push(FieldValue::Number(computer_id));
        assert(body == scan_fields(s, parser.cursor(), kinds, 5, acc));
        lemma_fields_step(s, parser.cursor(), kinds, 5, acc);
    }
    let application_id = parser.parse_usize()?;
    proof {
        acc = acc.push(FieldValue::Number(application_id));
        assert(body == scan_fields(s, parser.cursor(), kinds, 6, acc));
        lemma_fields_step(s, parser.cursor(), kinds, 6, acc);
    }
    let connection = parser.parse_usize()?;
    proof {
        acc = acc.push(FieldValue::Number(connection));
        assert(body == scan_fields(s, parser.cursor(), kinds, 7, acc));
        lemma_fields_step(s, parser.cursor(), kinds, 7, acc);
    }
    let event_id = parser.parse_usize()?;
    proof {
        acc = acc.push(FieldValue::Number(event_id));
        assert(body == scan_fields(s, parser.cursor(), kinds, 8, acc));
        lemma_fields_step(s, parser.cursor(), kinds, 8, acc);
    }
    let log_level = parse_log_level(parser)?;
    proof {
        acc = acc.push(FieldValue::Level(log_level));
        assert(body == scan_fields(s, parser.cursor(), kinds, 9, acc));
        lemma_fields_step(s, parser.cursor(), kinds, 9, acc);
    }
    let comment = parser.parse_str()?;
    proof {
        acc = acc.push(FieldValue::Text(comment@));
        assert(body == scan_fields(s, parser.cursor(), kinds, 10, acc));
        lemma_fields_step(s, parser.cursor(), kinds, 10, acc);
    }
    let metadata_id = parser.parse_usize()?;
    proof {
        acc = acc.push(FieldValue::Number(metadata_id));
        assert(body == scan_fields(s, parser.cursor(), kinds, 11, acc));
        lemma_fields_step(s, parser.cursor(), kinds, 11, acc);
    }
    let data = parser.parse_object()?;
    proof {
        acc = acc.push(FieldValue::Object(data.spec_bytes()));
        assert(body == scan_fields(s, parser.cursor(), kinds, 12, acc));
        lemma_fields_step(s, parser.cursor(), kinds, 12, acc);
    }
    let data_presentation = parser.parse_str()?;
    proof {
        acc = acc.push(FieldValue::Text(data_presentation@));
        assert(body == scan_fields(s, parser.cursor(), kinds, 13, acc));
        lemma_fields_step(s, parser.cursor(), kinds, 13, acc);
    }
    let worker_server_id = parser.parse_usize()?;
    proof {
        acc = acc.push(FieldValue::Number(worker_server_id));
        assert(body == scan_fields(s, parser.cursor(), kinds, 14, acc));
        lemma_fields_step(s, parser.cursor(), kinds, 14, acc);
    }
    let port_id = parser.parse_usize()?;
    proof {
        acc = acc.push(FieldValue::Number(port_id));
        assert(body == scan_fields(s, parser.cursor(), kinds, 15, acc));
        lemma_fields_step(s, parser.cursor(), kinds, 15, acc);
    }
    let sync_port_id = parser.parse_usize()?;
    proof {
        acc = acc.push(FieldValue::Number(sync_port_id));
        assert(body == scan_fields(s, parser.cursor(), kinds, 16, acc));
        lemma_fields_step(s, parser.cursor(), kinds, 16, acc);
    }
    let session = parser.parse_usize()?;
    proof {
        acc = acc.push(FieldValue::Number(session));
        assert(body == scan_fields(s, parser.cursor(), kinds, 17, acc));
        lemma_fields_step(s, parser.cursor(), kinds, 17, acc);
    }
    let unknown1 = parser.parse_usize()?;
    proof {
        acc = acc.push(FieldValue::Number(unknown1));
        assert(body == scan_fields(s, parser.cursor(), kinds, 18, acc));
        lemma_fields_step(s, parser.cursor(), kinds, 18, acc);
    }
    let unknown2 = parser.parse_object()?;
    proof {
        acc = acc.push(FieldValue::Object(unknown2.spec_bytes()));
        assert(body == scan_fields(s, parser.cursor(), kinds, 19, acc));
    }
    let event = Event {
        date,
        transaction_status,
        transaction_data,
        user_id,
        computer_id,
        application_id,
        connection,
        event_id,
        log_level,
        comment,
        metadata_id,
        data,
        data_presentation,
        worker_server_id,
        port_id,
        sync_port_id,
        session,
        unknown1,
        unknown2,
    };
    proof {
        lemma_fields_end(s, parser.cursor(), kinds, acc);
        assert(event@ == event_of(acc));
    }
    Ok(event)
}

/// Decodes the next record, passing over malformed ones.
pub fn next_event<'a>(parser: &mut Parser<'a>) -> (r: Pulled<'a>)
    ensures
        final(parser).window() == old(parser).window(),
        match r {
            Pulled::Record(event) => pull_event(old(parser).window(), old(parser).cursor())
                == (PullModel::Record { event: event@, next: final(parser).cursor() })
                && old(parser).cursor() < final(parser).cursor(),
            Pulled::Stop(resume) => pull_event(old(parser).window(), old(parser).cursor())
                == (PullModel::Stop { resume: resume as int, at: final(parser).cursor() })
                && old(parser).cursor() <= resume <= final(parser).cursor(),
        },
{
    let ghost s = parser.window();
    proof {
        use_type_invariant(&*parser);
    }
    loop
        invariant
            parser.window() == s,
            s == old(parser).window(),
            old(parser).cursor() <= parser.cursor() <= s.len(),
            pull_event(s, old(parser).cursor()) == pull_event(s, parser.cursor()),
        decreases s.len() - parser.cursor(),
    {
        let position = parser.position();
        proof {
            lemma_event_bounds(s, position as int);
        }
        match parse_record(parser) {
            Ok(event) => {
                return Pulled::Record(event);
            },
            Err(ParseError::End) => {
                return Pulled::Stop(position);
            },
            Err(ParseError::InvalidFormat) => {
                proof {
                    lemma_find_either(s, parser.cursor(), CR, CR);
                }
                if parser.skip_to(CR).is_none() {
                    return Pulled::Stop(position);
                }
                proof {
                    use_type_invariant(&*parser);
                }
            },
        }
    }
}

/// The views of the events of a sequence, in order.
pub open spec fn event_models(events: Seq<Event<'_>>) -> Seq<EventModel> {
    Seq::new(events.len(), |i: int| events[i]@)
}

/// Decodes every record of `buffer` that is complete, and returns them with
/// the offset at which decoding resumes once more bytes are there.
pub fn decode_buffer<'a>(buffer: &'a [u8]) -> (r: (Vec<Event<'a>>, usize))
    ensures
        event_models(r.0@) == event_pass(buffer@, 0).events,
        r.1 == event_pass(buffer@, 0).consumed,
        r.1 <= buffer@.len(),
{
    let mut parser = Parser::new(buffer);
    let mut events: Vec<Event<'a>> = Vec::new();
    let ghost s = buffer@;
    loop
        invariant
            parser.window() == s,
            s == buffer@,
            0 <= parser.cursor() <= s.len(),
            event_pass(s, 0).events == event_models(events@) + event_pass(
                s,
                parser.cursor(),
            ).events,
            event_pass(s, 0).consumed == event_pass(s, parser.cursor()).consumed,
        decreases s.len() - parser.cursor(),
    {
        let ghost before = events@;
        match next_event(&mut parser) {
            Pulled::Record(event) => {
                events.push(event);
                proof {
                    use_type_invariant(&parser);
                    let rest = event_pass(s, parser.cursor()).events;
                    assert(event_models(events@) =~= event_models(before) + seq![event@]);
                    assert(event_models(before) + (seq![event@] + rest) =~= event_models(events@)
                        + rest);
                }
            },
            Pulled::Stop(resume) => {
                proof {
                    use_type_invariant(&parser);
                    assert(event_models(events@) + Seq::<EventModel>::empty() =~= event_models(
                        events@,
                    ));
                }
                return (events, resume);
            },
        }
    }
}

/// Decodes every record of `buffer` that is complete and hands each to
/// `action`, in order. Returns the offset at which decoding resumes once
/// more bytes are there.
pub fn parse_buffer<F>(buffer: &[u8], action: &mut F) -> (consumed: usize) where
    F: FnMut(Event),

    requires
        forall|event: Event| call_requires(*old(action), (event,)),
    ensures
        consumed == event_pass(buffer@, 0).consumed,
        consumed <= buffer@.len(),
{
    let mut parser = Parser::new(buffer);
    let ghost s = buffer@;
    loop
        invariant
            parser.window() == s,
            s == buffer@,
            0 <= parser.cursor() <= s.len(),
            event_pass(s, 0).consumed == event_pass(s, parser.cursor()).consumed,
            forall|event: Event| call_requires(*action, (event,)),
        decreases s.len() - parser.cursor(),
    {
        match next_event(&mut parser) {
            Pulled::Record(event) => {
                proof {
                    use_type_invariant(&parser);
                }
                action(event);
            },
            Pulled::Stop(resume) => {
                proof {
                    use_type_invariant(&parser);
                }
                return resume;
            },
        }
    }
}

/// One turn of the chunked driver: a pass over the first `filled` bytes of
/// `buffer`, then the buffer made ready for the next fill. Returns the
/// offset at which the next fill starts; the bytes before it are those the
/// pass did not consume.
pub fn parse_chunk<F>(buffer: &mut Vec<u8>, filled: usize, action: &mut F) -> (offset: usize) where
    F: FnMut(Event),

    requires
        filled <= old(buffer)@.len(),
        forall|event: Event| call_requires(*old(action), (event,)),
    ensures
        ({
            let consumed = event_pass(old(buffer)@.subrange(0, filled as int), 0).consumed;
            &&& 0 <= consumed <= filled
            &&& offset == filled - consumed
            &&& final(buffer)@.subrange(0, offset as int) == old(buffer)@.subrange(
                consumed,
                filled as int,
            )
            &&& final(buffer)@.len() == if consumed == 0 && filled == old(buffer)@.len() {
                2 * old(buffer)@.len()
            } else {
                old(buffer)@.len()
            }
        }),
{
    let consumed = parse_buffer(slice_subrange(buffer.as_slice(), 0, filled), action);
    slide(buffer, filled, consumed)
}

} // verus!
