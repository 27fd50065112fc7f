//! Records as fixed sequences of typed fields.
//!
//! A record schema is a sequence of [`FieldKind`]s; scanning a record is
//! scanning its fields one after the other, left to right, and stopping at
//! the first that fails.

use crate::calendar::Timestamp;
use crate::events::{EventLogLevel, TransactionStatus};
use crate::grammar::{
    done, fail, is_window_range, lemma_number_bounds, lemma_object_bounds, lemma_object_text,
    lemma_quoted_bounds, lemma_quoted_content, lemma_raw_bounds, scan_number, scan_object,
    scan_quoted, Quoted, Step, ZERO,
};
use crate::ident::scan_uuid;
use crate::parser::ParseError;
use vstd::prelude::*;

verus! {

/// The shapes a field of a record can have.
pub enum FieldKind {
    /// Fourteen digits, `YYYYMMDDhhmmss`, and one separator byte.
    Timestamp,
    /// A one-letter transaction status and one separator byte.
    Status,
    /// A one-letter log level and one separator byte.
    Level,
    /// An unsigned integer.
    Number,
    /// A 128-bit identifier in hyphenated form.
    Uuid,
    /// A quoted string.
    Text,
    /// A nested object, kept as text.
    Object,
}

/// A decoded field, by kind.
pub enum FieldValue {
    Timestamp(Timestamp),
    Status(TransactionStatus),
    Level(EventLogLevel),
    Number(usize),
    /// The 128 bits of the identifier.
    Uuid(u128),
    /// The content between the quotes, still escaped, and the flag.
    Text(Quoted),
    /// The text of the object, braces included.
    Object(Seq<u8>),
}

impl FieldValue {
    /// The timestamp of a `Timestamp` value.
    pub open spec fn timestamp(self) -> Timestamp {
        match self {
            FieldValue::Timestamp(t) => t,
            _ => arbitrary(),
        }
    }

    /// The status of a `Status` value.
    pub open spec fn status(self) -> TransactionStatus {
        match self {
            FieldValue::Status(t) => t,
            _ => arbitrary(),
        }
    }

    /// The level of a `Level` value.
    pub open spec fn level(self) -> EventLogLevel {
        match self {
            FieldValue::Level(t) => t,
            _ => arbitrary(),
        }
    }

    /// The number of a `Number` value.
    pub open spec fn number(self) -> usize {
        match self {
            FieldValue::Number(n) => n,
            _ => arbitrary(),
        }
    }

    /// The bits of a `Uuid` value.
    pub open spec fn uuid(self) -> u128 {
        match self {
            FieldValue::Uuid(n) => n,
            _ => arbitrary(),
        }
    }

    /// The quoted string of a `Text` value.
    pub open spec fn text(self) -> Quoted {
        match self {
            FieldValue::Text(q) => q,
            _ => arbitrary(),
        }
    }

    /// The bytes of an `Object` value.
    pub open spec fn object(self) -> Seq<u8> {
        match self {
            FieldValue::Object(o) => o,
            _ => arbitrary(),
        }
    }
}

/// A byte taken as a decimal digit: `byte - '0'`, wrapping.
pub open spec fn digit_of(b: u8) -> int {
    b.wrapping_sub(ZERO) as int
}

/// The two bytes at `i` taken as a two-digit group.
pub open spec fn two_digits(s: Seq<u8>, i: int) -> int {
    digit_of(s[i]) * 10 + digit_of(s[i + 1])
}

/// The timestamp that the fourteen bytes at `pos` spell: a four-digit year
/// and two digits each for month, day, hour, minute and second.
pub open spec fn timestamp_at(s: Seq<u8>, pos: int) -> Timestamp {
    Timestamp {
        year: (two_digits(s, pos) * 100 + two_digits(s, pos + 2)) as i32,
        month: two_digits(s, pos + 4) as u32,
        day: two_digits(s, pos + 6) as u32,
        hour: two_digits(s, pos + 8) as u32,
        minute: two_digits(s, pos + 10) as u32,
        second: two_digits(s, pos + 12) as u32,
    }
}

/// Timestamp field: fourteen digit bytes and one byte that is skipped
/// unread. With fewer than fifteen bytes left the whole window is consumed.
pub open spec fn scan_timestamp(s: Seq<u8>, pos: int) -> Step<Timestamp> {
    if pos + 15 > s.len() {
        fail(ParseError::End, s.len() as int)
    } else if timestamp_at(s, pos).well_formed() {
        done(timestamp_at(s, pos), pos + 15)
    } else {
        fail(ParseError::InvalidFormat, pos + 15)
    }
}

/// The transaction status a letter stands for.
pub open spec fn status_of(b: u8) -> Option<TransactionStatus> {
    if b == 0x52 {
        Some(TransactionStatus::RolledBack)
    } else if b == 0x4e {
        Some(TransactionStatus::NotApplicable)
    } else if b == 0x55 {
        Some(TransactionStatus::Unfinished)
    } else if b == 0x43 {
        Some(TransactionStatus::Committed)
    } else {
        None
    }
}

/// The log level a letter stands for.
pub open spec fn level_of(b: u8) -> Option<EventLogLevel> {
    if b == 0x45 {
        Some(EventLogLevel::Error)
    } else if b == 0x49 {
        Some(EventLogLevel::Information)
    } else if b == 0x4e {
        Some(EventLogLevel::Note)
    } else if b == 0x57 {
        Some(EventLogLevel::Warning)
    } else {
        None
    }
}

/// One-letter code field: the letter, then one byte that is skipped unread.
/// Both bytes are consumed before the letter is judged.
pub open spec fn scan_code<T>(s: Seq<u8>, pos: int, meaning: Option<T>) -> Step<T> {
    if pos >= s.len() {
        fail(ParseError::End, pos)
    } else if pos + 2 > s.len() {
        fail(ParseError::End, pos + 1)
    } else {
        match meaning {
            Some(v) => done(v, pos + 2),
            None => fail(ParseError::InvalidFormat, pos + 2),
        }
    }
}

/// Transaction status field.
pub open spec fn scan_status(s: Seq<u8>, pos: int) -> Step<TransactionStatus> {
    scan_code(s, pos, status_of(s[pos]))
}

/// Log level field.
pub open spec fn scan_level(s: Seq<u8>, pos: int) -> Step<EventLogLevel> {
    scan_code(s, pos, level_of(s[pos]))
}

/// Scans one field of the given kind.
pub open spec fn scan_field(kind: FieldKind, s: Seq<u8>, pos: int) -> Step<FieldValue> {
    match kind {
        FieldKind::Timestamp => {
            let r = scan_timestamp(s, pos);
            match r.result {
                Ok(v) => done(FieldValue::Timestamp(v), r.pos),
                Err(e) => fail(e, r.pos),
            }
        },
        FieldKind::Status => {
            let r = scan_status(s, pos);
            match r.result {
                Ok(v) => done(FieldValue::Status(v), r.pos),
                Err(e) => fail(e, r.pos),
            }
        },
        FieldKind::Level => {
            let r = scan_level(s, pos);
            match r.result {
                Ok(v) => done(FieldValue::Level(v), r.pos),
                Err(e) => fail(e, r.pos),
            }
        },
        FieldKind::Number => {
            let r = scan_number(s, pos);
            match r.result {
                Ok(v) => done(FieldValue::Number(v), r.pos),
                Err(e) => fail(e, r.pos),
            }
        },
        FieldKind::Uuid => {
            let r = scan_uuid(s, pos);
            match r.result {
                Ok(v) => done(FieldValue::Uuid(v), r.pos),
                Err(e) => fail(e, r.pos),
            }
        },
        FieldKind::Text => {
            let r = scan_quoted(s, pos);
            match r.result {
                Ok(v) => done(FieldValue::Text(v), r.pos),
                Err(e) => fail(e, r.pos),
            }
        },
        FieldKind::Object => {
            let r = scan_object(s, pos);
            match r.result {
                Ok(v) => done(FieldValue::Object(v), r.pos),
                Err(e) => fail(e, r.pos),
            }
        },
    }
}

/// Scans the fields `kinds[k..]` from `pos` on, appending their values to
/// `acc`. The first field that fails ends the scan with its error.
#[verifier::opaque]
pub open spec fn scan_fields(
    s: Seq<u8>,
    pos: int,
    kinds: Seq<FieldKind>,
    k: int,
    acc: Seq<FieldValue>,
) -> Step<Seq<FieldValue>>
    decreases kinds.len() - k,
{
    if k < 0 || k >= kinds.len() {
        done(acc, pos)
    } else {
        let r = scan_field(kinds[k], s, pos);
        match r.result {
            Err(e) => fail(e, r.pos),
            Ok(v) => scan_fields(s, r.pos, kinds, k + 1, acc.push(v)),
        }
    }
}

/// Scans a whole record body laid out as `kinds`.
pub open spec fn scan_record(s: Seq<u8>, pos: int, kinds: Seq<FieldKind>) -> Step<Seq<FieldValue>> {
    scan_fields(s, pos, kinds, 0, Seq::empty())
}

/// One unfolding of `scan_fields`: a field that fails ends the scan with
/// its error, and a field that decodes hands its value on to the scan of
/// the fields after it.
pub proof fn lemma_fields_step(
    s: Seq<u8>,
    pos: int,
    kinds: Seq<FieldKind>,
    k: int,
    acc: Seq<FieldValue>,
)
    requires
        0 <= k < kinds.len(),
    ensures
        match scan_field(kinds[k], s, pos).result {
            Err(e) => scan_fields(s, pos, kinds, k, acc) == fail::<Seq<FieldValue>>(
                e,
                scan_field(kinds[k], s, pos).pos,
            ),
            Ok(v) => scan_fields(s, pos, kinds, k, acc) == scan_fields(
                s,
                scan_field(kinds[k], s, pos).pos,
                kinds,
                k + 1,
                acc.push(v),
            ),
        },
{
    reveal(scan_fields);
}

/// Where the scan of one field leaves the cursor.
pub proof fn lemma_field_bounds(kind: FieldKind, s: Seq<u8>, pos: int)
    requires
        0 <= pos <= s.len(),
    ensures
        pos <= scan_field(kind, s, pos).pos <= s.len(),
{
    lemma_number_bounds(s, pos);
    lemma_raw_bounds(s, pos);
    lemma_quoted_bounds(s, pos);
    lemma_object_bounds(s, pos);
}

/// Where the scan of a run of fields leaves the cursor.
pub proof fn lemma_fields_bounds(
    s: Seq<u8>,
    pos: int,
    kinds: Seq<FieldKind>,
    k: int,
    acc: Seq<FieldValue>,
)
    requires
        0 <= pos <= s.len(),
    ensures
        pos <= scan_fields(s, pos, kinds, k, acc).pos <= s.len(),
    decreases kinds.len() - k,
{
    reveal(scan_fields);
    if 0 <= k < kinds.len() {
        lemma_field_bounds(kinds[k], s, pos);
        let r = scan_field(kinds[k], s, pos);
        if let Ok(v) = r.result {
            lemma_fields_bounds(s, r.pos, kinds, k + 1, acc.push(v));
        }
    }
}

/// True when `value` is of kind `kind`; a timestamp, moreover, names a
/// moment that the calendar has.
pub open spec fn has_kind(value: FieldValue, kind: FieldKind) -> bool {
    match kind {
        FieldKind::Timestamp => value matches FieldValue::Timestamp(t) && t.well_formed(),
        FieldKind::Status => value is Status,
        FieldKind::Level => value is Level,
        FieldKind::Number => value is Number,
        FieldKind::Uuid => value is Uuid,
        FieldKind::Text => value is Text,
        FieldKind::Object => value is Object,
    }
}

/// True when the bytes that `value` holds are bytes of the window `s`,
/// untouched: the text of an object, the content of a quoted string.
pub open spec fn borrows_from(s: Seq<u8>, value: FieldValue) -> bool {
    match value {
        FieldValue::Object(text) => is_window_range(s, text),
        FieldValue::Text(q) => is_window_range(s, q.content),
        _ => true,
    }
}

/// A decoded field is of the kind asked for, and what it holds of text is
/// the window's own bytes.
pub proof fn lemma_field_value(kind: FieldKind, s: Seq<u8>, pos: int)
    requires
        0 <= pos <= s.len(),
    ensures
        scan_field(kind, s, pos).result matches Ok(v) ==> has_kind(v, kind) && borrows_from(s, v),
{
    lemma_object_text(s, pos);
    lemma_quoted_content(s, pos);
}

/// The values of a decoded record: one for each field, each of its field's
/// kind, and what they hold of text is the window's own bytes.
pub proof fn lemma_fields_values(
    s: Seq<u8>,
    pos: int,
    kinds: Seq<FieldKind>,
    k: int,
    acc: Seq<FieldValue>,
)
    requires
        0 <= pos <= s.len(),
        0 <= k <= kinds.len(),
        acc.len() == k,
        forall|i: int| 0 <= i < k ==> has_kind(acc[i], kinds[i]) && borrows_from(s, acc[i]),
    ensures
        scan_fields(s, pos, kinds, k, acc).result matches Ok(values) ==> {
            &&& values.len() == kinds.len()
            &&& forall|i: int|
                0 <= i < kinds.len() ==> has_kind(#[trigger] values[i], kinds[i]) && borrows_from(
                    s,
                    values[i],
                )
        },
    decreases kinds.len() - k,
{
    reveal(scan_fields);
    if k < kinds.len() {
        lemma_field_value(kinds[k], s, pos);
        lemma_field_bounds(kinds[k], s, pos);
        let r = scan_field(kinds[k], s, pos);
        if let Ok(v) = r.result {
            lemma_fields_values(s, r.pos, kinds, k + 1, acc.push(v));
        }
    }
}

/// Past the last field the scan is done.
pub proof fn lemma_fields_end(s: Seq<u8>, pos: int, kinds: Seq<FieldKind>, acc: Seq<FieldValue>)
    ensures
        scan_fields(s, pos, kinds, kinds.len() as int, acc) == done(acc, pos),
{
    reveal(scan_fields);
}

} // verus!
