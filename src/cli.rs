use crate::models::{formatted_time, hyphenated, showable, time_pattern, Memo, MemoId, MemoView, Timestamp};
use crate::repository::{has_id, valid_records, MemoRepository, StoreError};
use vstd::prelude::*;

verus! {

/// The command line of `jot`: one subcommand.
#[derive(Clone, Copy, Debug, PartialEq, Eq, Structural)]
pub struct Cli {
    pub command: CliCommand,
}

/// The subcommands of `jot`.
#[derive(Clone, Copy, Debug, PartialEq, Eq, Structural)]
pub enum CliCommand {
    /// Make a memo from the given content.
    New,
    /// Show every memo, oldest first.
    List,
}

/// The most characters of a memo's content shown when memos are listed.
pub const PREVIEW_WIDTH: usize = 40;

/// `k` is where the preview of `c` ends: at the first line break, after
/// `PREVIEW_WIDTH` characters, or at the end, whichever comes first.
pub open spec fn preview_end(c: Seq<char>, k: int) -> bool {
    &&& 0 <= k <= c.len()
    &&& k <= PREVIEW_WIDTH
    &&& forall|j: int| 0 <= j < k ==> c[j] != '\n'
    &&& (k == c.len() || k == PREVIEW_WIDTH || c[k] == '\n')
}

/// The part of a memo's content shown in a listing.
pub open spec fn preview_of(c: Seq<char>) -> Seq<char> {
    c.take(choose|k: int| preview_end(c, k))
}

/// The preview of `c` ends at any point that meets `preview_end`: there is one.
pub proof fn lemma_preview_end(c: Seq<char>, k: int)
    requires
        preview_end(c, k),
    ensures
        preview_of(c) == c.take(k),
{
    let k2 = choose|k2: int| preview_end(c, k2);
    assert(preview_end(c, k2));
    if k2 < k {
        assert(c[k2] != '\n');
    } else if k2 > k {
        assert(c[k] != '\n');
    }
}

/// What stands in a listing for a timestamp that cannot be shown.
pub open spec fn unknown_time() -> Seq<char> {
    "unknown time"@
}

/// The text shown for a timestamp, given what formatting it gave.
pub open spec fn time_field(formatted: Option<String>) -> Seq<char> {
    match formatted {
        Some(s) => s@,
        None => unknown_time(),
    }
}

/// The time of `m` as formatting gives it where it succeeds.
pub open spec fn shown_time(m: MemoView) -> Seq<char> {
    formatted_time(m.created_date.secs, m.created_date.nanos, m.created_date.offset, time_pattern())
}

/// A memo's line in a listing: its identifier, the time shown for it and its preview,
/// separated by two spaces.
pub open spec fn line_text(m: MemoView, time: Seq<char>) -> Seq<char> {
    hyphenated(m.id) + "  "@ + time + "  "@ + preview_of(m.content)
}

/// A line that `render_memo` may give for `m`: the one with its formatted time
/// wherever that time is `showable`; elsewhere that one or the one with `unknown_time`.
pub open spec fn is_memo_line(m: MemoView, line: Seq<char>) -> bool {
    let d = m.created_date;
    &&& showable(d.secs, d.nanos, d.offset) ==> line == line_text(m, shown_time(m))
    &&& (line == line_text(m, shown_time(m)) || line == line_text(m, unknown_time()))
}

/// The line printed when there is no memo to list.
pub open spec fn empty_message() -> Seq<char> {
    "no memos"@
}

/// The message for a store error.
pub open spec fn error_text(e: StoreError) -> Seq<char> {
    match e {
        StoreError::DuplicateId => "a memo with this id already exists"@,
        StoreError::NotFound => "no memo with this id"@,
        StoreError::IoFailure => "could not read or write the memo store"@,
    }
}

/// What a command prints, and the status the process exits with.
pub struct Outcome {
    pub out: Vec<String>,
    pub err: Vec<String>,
    pub status: u8,
}

/// The preview of a memo's content: its first line, cut after `PREVIEW_WIDTH`
/// characters.
pub fn preview(content: &str) -> (r: String)
    ensures
        r@ == preview_of(content@),
{
    let n = content.unicode_len();
    let mut k: usize = 0;
    while k < n && k < PREVIEW_WIDTH && content.get_char(k) != '\n'
        invariant
            n == content@.len(),
            k <= n,
            k <= PREVIEW_WIDTH,
            forall|j: int| 0 <= j < k ==> content@[j] != '\n',
        decreases n - k,
    {
        k += 1;
    }
    proof {
        lemma_preview_end(content@, k as int);
    }
    let part = content.substring_char(0, k);
    assert(part@ =~= content@.take(k as int));
    String::from_str(part)
}

/// The line of a listing for `memo`, given what formatting its timestamp gave.
pub fn memo_line(memo: &Memo, time: Option<String>) -> (r: String)
    ensures
        r@ == line_text(memo@, time_field(time)),
{
    let mut line = memo.id().to_text();
    line.append("  ");
    match time {
        Some(t) => line.append(t.as_str()),
        None => line.append("unknown time"),
    }
    line.append("  ");
    let shown = preview(memo.content());
    line.append(shown.as_str());
    proof {
        reveal_strlit("  ");
    }
    assert(line@ =~= line_text(memo@, time_field(time)));
    line
}

/// The line of a listing for `memo`.
pub fn render_memo(memo: &Memo) -> (r: String)
    ensures
        is_memo_line(memo@, r@),
{
    let when = memo.created_date().to_text();
    memo_line(memo, when)
}

/// The lines that `jot list` prints for `memos`: one per memo, in the given order,
/// or the empty-state message where there is none.
pub fn listing(memos: &Vec<Memo>) -> (r: Vec<String>)
    ensures
        memos@.len() == 0 ==> r@.len() == 1 && r@[0]@ == empty_message(),
        memos@.len() > 0 ==> r@.len() == memos@.len() && forall|i: int|
            0 <= i < memos@.len() ==> is_memo_line(memos@[i]@, #[trigger] r@[i]@),
{
    let mut lines: Vec<String> = Vec::new();
    if memos.len() == 0 {
        lines.push(String::from_str("no memos"));
        return lines;
    }
    let mut i: usize = 0;
    while i < memos.len()
        invariant
            0 <= i <= memos@.len(),
            lines@.len() == i,
            forall|j: int| 0 <= j < i ==> is_memo_line(memos@[j]@, #[trigger] lines@[j]@),
        decreases memos@.len() - i,
    {
        let line = render_memo(&memos[i]);
        lines.push(line);
        i += 1;
    }
    lines
}

/// `jot list`: the listing of every memo held, oldest first; exits with status 0.
pub fn run_list<R: MemoRepository>(repo: &R) -> (r: Outcome)
    requires
        repo.inv(),
    ensures
        r.status == 0,
        r.err@.len() == 0,
        repo.records().len() == 0 ==> r.out@.len() == 1 && r.out@[0]@ == empty_message(),
        repo.records().len() > 0 ==> r.out@.len() == repo.records().len() && forall|i: int|
            0 <= i < repo.records().len() ==> is_memo_line(
                repo.records()[i],
                #[trigger] r.out@[i]@,
            ),
{
    let memos = repo.list();
    let out = listing(&memos);
    proof {
        assert forall|i: int| 0 <= i < memos@.len() implies memos@[i]@ == repo.records()[i] by {
            assert(crate::repository::views_of(memos@)[i] == memos@[i]@);
        }
    }
    Outcome { out, err: Vec::new(), status: 0 }
}

/// The message for a store error.
pub fn error_message(e: StoreError) -> (r: String)
    ensures
        r@ == error_text(e),
{
    match e {
        StoreError::DuplicateId => String::from_str("a memo with this id already exists"),
        StoreError::NotFound => String::from_str("no memo with this id"),
        StoreError::IoFailure => String::from_str("could not read or write the memo store"),
    }
}

/// A failed command: the error's message, and status 1.
pub fn failure(e: StoreError) -> (r: Outcome)
    ensures
        r.status == 1,
        r.out@.len() == 0,
        r.err@.len() == 1,
        r.err@[0]@ == error_text(e),
{
    let mut err: Vec<String> = Vec::new();
    err.push(error_message(e));
    Outcome { out: Vec::new(), err, status: 1 }
}

/// `jot new`: stores a memo made of the given parts and prints its identifier; where a
/// memo with that identifier is held already, stores nothing and fails.
pub fn run_new<R: MemoRepository>(
    repo: &mut R,
    id: MemoId,
    content: String,
    created_date: Timestamp,
    created_path: String,
) -> (r: Outcome)
    requires
        old(repo).inv(),
    ensures
        final(repo).inv(),
        valid_records(final(repo).records()),
        has_id(old(repo).records(), id.0) ==> final(repo).records() == old(repo).records()
            && r.status == 1 && r.out@.len() == 0 && r.err@.len() == 1 && r.err@[0]@ == error_text(
            StoreError::DuplicateId,
        ),
        !has_id(old(repo).records(), id.0) ==> final(repo).records().to_multiset() == old(
            repo,
        ).records().to_multiset().insert(
            MemoView { id: id.0, content: content@, created_date, created_path: created_path@ },
        ) && r.status == 0 && r.err@.len() == 0 && r.out@.len() == 1 && r.out@[0]@ == hyphenated(
            id.0,
        ),
{
    let memo = Memo::new(id, content, created_date, created_path);
    match repo.insert(memo) {
        Ok(()) => {
            let mut out: Vec<String> = Vec::new();
            out.push(id.to_text());
            Outcome { out, err: Vec::new(), status: 0 }
        },
        Err(e) => failure(e),
    }
}

} // verus!
