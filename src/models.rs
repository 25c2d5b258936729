use vstd::arithmetic::power::pow;
use vstd::prelude::*;

verus! {

/// The identifier of a memo: a 128-bit value, in practice a random (version 4) UUID.
#[derive(Clone, Copy, Debug, PartialEq, Eq, Structural)]
pub struct MemoId(pub u128);

/// A point in time as a Unix timestamp (seconds and nanoseconds since the epoch, UTC),
/// with the local offset from UTC, in seconds, that was in force when it was taken.
/// A nanosecond count of a billion or more stands for a leap second.
#[derive(Clone, Copy, Debug, PartialEq, Eq, Structural)]
pub struct Timestamp {
    pub secs: i64,
    pub nanos: u32,
    pub offset: i32,
}

/// The lower-case hexadecimal digit of `n`, for `0 <= n < 16`.
pub open spec fn hex_digit(n: int) -> char {
    seq!['0', '1', '2', '3', '4', '5', '6', '7', '8', '9', 'a', 'b', 'c', 'd', 'e', 'f'][n]
}

/// Which of the 32 hex digits of the hyphenated form stands at position `p`
/// (for a position that holds no dash).
pub open spec fn digit_index(p: int) -> int {
    if p < 8 {
        p
    } else if p < 13 {
        p - 1
    } else if p < 18 {
        p - 2
    } else if p < 23 {
        p - 3
    } else {
        p - 4
    }
}

/// The hyphenated text of a 128-bit identifier: its 32 lower-case hex digits, most
/// significant first, split 8-4-4-4-12 by dashes.
pub open spec fn hyphenated(v: u128) -> Seq<char> {
    Seq::new(
        36,
        |p: int|
            if p == 8 || p == 13 || p == 18 || p == 23 {
                '-'
            } else {
                hex_digit((v as int / pow(16, (31 - digit_index(p)) as nat)) % 16)
            },
    )
}

/// The text that chrono's `format` gives for the instant `secs`/`nanos` seen at the
/// offset `offset` from UTC, under the strftime pattern `pattern`.
pub uninterp spec fn formatted_time(secs: i64, nanos: u32, offset: i32, pattern: Seq<char>) -> Seq<char>;

/// Relies on uuid's `Uuid::from_u128` (big-endian bytes) and the `Display` of
/// `Hyphenated`, which writes each byte as two lower-case hex digits, with dashes
/// after the 4th, 6th, 8th and 10th byte.
#[verifier::external_body]
fn uuid_hyphenated(v: u128) -> (r: String)
    ensures
        r@ == hyphenated(v),
{
    uuid::Uuid::from_u128(v).hyphenated().to_string()
}

/// The instant and offset lie where chrono can always represent and format them:
/// an offset under a day either way, no leap-second nanoseconds, and within about
/// 250,000 years of the epoch.
pub open spec fn showable(secs: i64, nanos: u32, offset: i32) -> bool {
    &&& -86_400 < offset < 86_400
    &&& nanos < 1_000_000_000
    &&& -8_000_000_000_000 <= secs <= 8_000_000_000_000
}

/// Relies on chrono's `FixedOffset::east_opt`, `DateTime::from_timestamp` and
/// `DateTime::format`: `None` where the offset or the instant is out of chrono's
/// range, otherwise the formatted text, which depends on the arguments alone. Where
/// `showable` holds, `east_opt` accepts the offset and `from_timestamp` the instant
/// (chrono's years run to about 262,000 either way).
/// Held to the one pattern the library uses: `to_string` panics on a pattern that
/// chrono cannot format.
#[verifier::external_body]
fn chrono_format(secs: i64, nanos: u32, offset: i32, pattern: &str) -> (r: Option<String>)
    requires
        pattern@ == time_pattern(),
    ensures
        r matches Some(s) ==> s@ == formatted_time(secs, nanos, offset, pattern@),
        r is Some ==> -86_400 < offset < 86_400,
        showable(secs, nanos, offset) ==> r is Some,
{
    let zone = chrono::FixedOffset::east_opt(offset)?;
    let utc = chrono::DateTime::from_timestamp(secs, nanos)?;
    Some(utc.with_timezone(&zone).format(pattern).to_string())
}

impl MemoId {
    pub fn from_u128(value: u128) -> (r: MemoId)
        ensures
            r.0 == value,
    {
        MemoId(value)
    }

    pub fn as_u128(&self) -> (r: u128)
        ensures
            r == self.0,
    {
        self.0
    }

    /// The identifier in the usual hyphenated UUID form.
    pub fn to_text(&self) -> (r: String)
        ensures
            r@ == hyphenated(self.0),
    {
        uuid_hyphenated(self.0)
    }
}

/// The pattern under which timestamps are shown.
pub open spec fn time_pattern() -> Seq<char> {
    "%Y-%m-%d %H:%M:%S"@
}

impl Timestamp {
    /// The timestamp as local date and time, `YYYY-MM-DD hh:mm:ss`; `None` where
    /// it lies outside what chrono can represent.
    pub fn to_text(&self) -> (r: Option<String>)
        ensures
            showable(self.secs, self.nanos, self.offset) ==> r is Some,
            r matches Some(s) ==> s@ == formatted_time(
                self.secs,
                self.nanos,
                self.offset,
                time_pattern(),
            ),
    {
        chrono_format(self.secs, self.nanos, self.offset, "%Y-%m-%d %H:%M:%S")
    }
}

/// What a memo is, as a mathematical value.
pub struct MemoView {
    pub id: u128,
    pub content: Seq<char>,
    pub created_date: Timestamp,
    pub created_path: Seq<char>,
}

/// One note: its identifier, its text, when it was made, and the path it belongs to.
/// None of these changes once the memo is made.
#[derive(Debug)]
pub struct Memo {
    id: MemoId,
    content: String,
    created_date: Timestamp,
    created_path: String,
}

impl View for Memo {
    type V = MemoView;

    closed spec fn view(&self) -> MemoView {
        MemoView {
            id: self.id.0,
            content: self.content@,
            created_date: self.created_date,
            created_path: self.created_path@,
        }
    }
}

impl Memo {
    pub fn new(id: MemoId, content: String, created_date: Timestamp, created_path: String) -> (r: Memo)
        ensures
            r@ == (MemoView {
                id: id.0,
                content: content@,
                created_date,
                created_path: created_path@,
            }),
    {
        Memo { id, content, created_date, created_path }
    }

    pub fn id(&self) -> (r: MemoId)
        ensures
            r.0 == self@.id,
    {
        self.id
    }

    pub fn content(&self) -> (r: &str)
        ensures
            r@ == self@.content,
    {
        self.content.as_str()
    }

    pub fn created_date(&self) -> (r: Timestamp)
        ensures
            r == self@.created_date,
    {
        self.created_date
    }

    pub fn created_path(&self) -> (r: &str)
        ensures
            r@ == self@.created_path,
    {
        self.created_path.as_str()
    }

    /// Whether this memo is listed before `other`.
    pub fn precedes(&self, other: &Memo) -> (r: bool)
        ensures
            r == precedes(self@, other@),
    {
        let (x, y) = (self.created_date, other.created_date);
        x.secs < y.secs || (x.secs == y.secs && (x.nanos < y.nanos || (x.nanos == y.nanos
            && self.id.0 < other.id.0)))
    }
}

/// The order in which memos are listed: by creation instant (seconds, then
/// nanoseconds), and by identifier between memos made at the same instant.
pub open spec fn precedes(a: MemoView, b: MemoView) -> bool {
    let (x, y) = (a.created_date, b.created_date);
    x.secs < y.secs || (x.secs == y.secs && (x.nanos < y.nanos || (x.nanos == y.nanos && a.id
        < b.id)))
}

impl Clone for Memo {
    fn clone(&self) -> (r: Memo)
        ensures
            r@ == self@,
    {
        Memo {
            id: self.id,
            content: self.content.clone(),
            created_date: self.created_date,
            created_path: self.created_path.clone(),
        }
    }
}

} // verus!
