//! The `.in-flight` artifact: the record of an entry between delivery and acknowledgement.
//!
//! Written when an entry is delivered to the agent, removed when the agent has answered. It
//! outlives a crashed session, so that recovery can tell an entry that was acknowledged from one
//! that was not.
//!
//! `entry_id` is the SHA-256 digest of `raw_line` in hexadecimal: the same line gets the same
//! identifier at every retry.

use vstd::prelude::*;
use vstd::utf8::encode_utf8;

use crate::calendar;
use crate::error::{ErrorView, HeartbeatError};
use crate::json::hex_digit;
use crate::json_grammar::{hex_value, lemma_hex_digit};
use crate::paths::{is_plain, sibling_path, FilePath, PathView};
use crate::session_dir::{apply, DirView, Effect, EffectView, FileEntry, FileEntryView, SessionDir};

verus! {

/// An entry that has been delivered and not yet acknowledged.
#[derive(Debug, PartialEq)]
pub struct InFlightEntry {
    /// SHA-256 of `raw_line` in hexadecimal.
    pub entry_id: String,
    /// Byte offset of the entry's first byte in the inbox.
    pub start_offset: u64,
    /// Byte offset of the first byte after the entry, its newline included.
    pub end_offset: u64,
    /// The line as it stands in the inbox, not decoded.
    pub raw_line: String,
    /// When the entry was delivered, in ISO 8601 and UTC.
    pub delivered_at: String,
}

/// What an [`InFlightEntry`] holds.
#[verifier::ext_equal]
pub struct InFlightView {
    pub entry_id: Seq<char>,
    pub start_offset: u64,
    pub end_offset: u64,
    pub raw_line: Seq<char>,
    pub delivered_at: Seq<char>,
}

impl View for InFlightEntry {
    type V = InFlightView;

    open spec fn view(&self) -> InFlightView {
        InFlightView {
            entry_id: self.entry_id@,
            start_offset: self.start_offset,
            end_offset: self.end_offset,
            raw_line: self.raw_line@,
            delivered_at: self.delivered_at@,
        }
    }
}

impl Clone for InFlightEntry {
    fn clone(&self) -> (r: Self)
        ensures
            r@ == self@,
    {
        InFlightEntry {
            entry_id: self.entry_id.clone(),
            start_offset: self.start_offset,
            end_offset: self.end_offset,
            raw_line: self.raw_line.clone(),
            delivered_at: self.delivered_at.clone(),
        }
    }
}

/// The SHA-256 digest of `data`.
pub uninterp spec fn sha256_digest(data: Seq<u8>) -> Seq<u8>;

/// The digest that `sha2::Sha256` gives for `data`: a function of `data` alone, and 32 bytes
/// long. No value of it is stated, nor that different data give different digests.
#[verifier::external_body]
fn sha256(data: &[u8]) -> (r: Vec<u8>)
    ensures
        r@ == sha256_digest(data@),
        r@.len() == 32,
{
    <sha2::Sha256 as sha2::Digest>::digest(data).to_vec()
}

/// Two lower-case hexadecimal digits for each byte of `data`, the high half first.
pub open spec fn hex_text(data: Seq<u8>) -> Seq<char> {
    Seq::new(
        2 * data.len(),
        |i: int|
            if i % 2 == 0 {
                hex_digit(data[i / 2] as int / 16)
            } else {
                hex_digit(data[i / 2] as int % 16)
            },
    )
}

/// What `hex::encode` gives for `data`: two lower-case hexadecimal digits for each byte, the high
/// half first.
#[verifier::external_body]
fn hex_encode(data: &[u8]) -> (r: String)
    ensures
        r@ == hex_text(data@),
{
    hex::encode(data)
}

/// The SHA-256 digest of the UTF-8 bytes of `s`, in lower-case hexadecimal.
pub open spec fn sha256_hex_text(s: Seq<char>) -> Seq<char> {
    hex_text(sha256_digest(encode_utf8(s)))
}

/// The SHA-256 digest of `s` in lower-case hexadecimal.
pub fn sha256_hex(s: &str) -> (r: String)
    ensures
        r@ == sha256_hex_text(s@),
        r@ == hex_text(sha256_digest(encode_utf8(s@))),
        r@.len() == 64,
{
    let digest = sha256(s.as_bytes());
    hex_encode(digest.as_slice())
}

/// The seconds since the epoch on the system clock, as `std::time::SystemTime::now` tells them;
/// zero where the clock stands before the epoch. Nothing is said of the value.
#[verifier::external_body]
pub(crate) fn unix_now_secs() -> (r: u64) {
    std::time::SystemTime::now().duration_since(std::time::UNIX_EPOCH).unwrap_or_default().as_secs()
}

/// The current time in ISO 8601 and UTC, to the second: the timestamp of some instant, which is
/// the one that the system clock shows.
pub fn utc_now_iso8601() -> (r: String)
    ensures
        exists|secs: u64| r@ == #[trigger] calendar::iso8601(secs),
{
    let secs = unix_now_secs();
    calendar::iso8601_utc(secs)
}

/// The record of an entry that is delivered `secs` seconds after the epoch.
pub open spec fn in_flight_record(
    raw_line: Seq<char>,
    start_offset: u64,
    end_offset: u64,
    secs: u64,
) -> InFlightView {
    InFlightView {
        entry_id: sha256_hex_text(raw_line),
        start_offset,
        end_offset,
        raw_line,
        delivered_at: calendar::iso8601(secs),
    }
}

/// What `.in-flight` says in the directory `d`.
pub open spec fn in_flight_of(d: DirView) -> Result<Option<InFlightView>, ErrorView> {
    match d.in_flight {
        FileEntryView::Missing => Ok(None),
        FileEntryView::Failed(reason) => Err(
            ErrorView::InFlightRead { path: in_flight_path(d.inbox_path).text, source: reason },
        ),
        FileEntryView::Corrupt(reason) => Err(
            ErrorView::InFlightCorrupt { path: in_flight_path(d.inbox_path).text, source: reason },
        ),
        FileEntryView::Entry(entry) => Ok(Some(entry)),
    }
}

/// What a result of [`InFlightEntry::read_from`] says.
pub open spec fn in_flight_result(
    r: Result<Option<InFlightEntry>, HeartbeatError>,
) -> Result<Option<InFlightView>, ErrorView> {
    match r {
        Ok(Some(entry)) => Ok(Some(entry@)),
        Ok(None) => Ok(None),
        Err(e) => Err(e@),
    }
}

/// What was written to `.in-flight` is what is read back.
pub proof fn in_flight_reads_back(d: DirView, entry: InFlightView)
    ensures
        in_flight_of(apply(d, EffectView::WriteInFlight(entry))) == Ok::<_, ErrorView>(Some(entry)),
{
}

/// The same line gets the same identifier, whenever and from wherever in the inbox it is
/// delivered.
pub proof fn entry_id_is_stable(raw_line: Seq<char>, a: (u64, u64, u64), b: (u64, u64, u64))
    ensures
        in_flight_record(raw_line, a.0, a.1, a.2).entry_id == in_flight_record(
            raw_line,
            b.0,
            b.1,
            b.2,
        ).entry_id,
{
}

impl InFlightEntry {
    /// Writes this entry to `.in-flight`, in place of what was there.
    pub fn write_to(&self, dir: &mut SessionDir)
        ensures
            final(dir)@ == apply(old(dir)@, EffectView::WriteInFlight(self@)),
            final(dir).log() == old(dir).log().push(EffectView::WriteInFlight(self@)),
    {
        dir.perform(Effect::WriteInFlight(self.clone()));
    }

    /// Reads `.in-flight`: nothing where there is no such file, `InFlightCorrupt` where it is not
    /// the JSON text of an entry, `InFlightRead` where it cannot be read.
    pub fn read_from(dir: &SessionDir) -> (r: Result<Option<Self>, HeartbeatError>)
        ensures
            in_flight_result(r) == in_flight_of(dir@),
    {
        match &dir.in_flight {
            FileEntry::Missing => Ok(None),
            FileEntry::Failed(reason) => Err(
                HeartbeatError::InFlightRead {
                    path: in_flight_file_for(&dir.inbox_path).text,
                    source: reason.clone(),
                },
            ),
            FileEntry::Corrupt(reason) => Err(
                HeartbeatError::InFlightCorrupt {
                    path: in_flight_file_for(&dir.inbox_path).text,
                    source: reason.clone(),
                },
            ),
            FileEntry::Entry(entry) => Ok(Some(entry.clone())),
        }
    }

    /// The record of an entry that is delivered now.
    pub fn new(raw_line: &str, start_offset: u64, end_offset: u64) -> (r: Self)
        ensures
            exists|secs: u64|
                r@ == #[trigger] in_flight_record(raw_line@, start_offset, end_offset, secs),
    {
        let secs = unix_now_secs();
        InFlightEntry::delivered(raw_line, start_offset, end_offset, secs)
    }

    /// The record of an entry that is delivered `secs` seconds after the epoch.
    pub fn delivered(raw_line: &str, start_offset: u64, end_offset: u64, secs: u64) -> (r: Self)
        ensures
            r@ == in_flight_record(raw_line@, start_offset, end_offset, secs),
    {
        InFlightEntry {
            entry_id: sha256_hex(raw_line),
            start_offset,
            end_offset,
            raw_line: raw_line.to_owned(),
            delivered_at: calendar::iso8601_utc(secs),
        }
    }

    /// Whether the cursor has already reached or passed this entry's end: the entry was
    /// acknowledged, and only the removal of `.in-flight` was interrupted.
    pub fn is_stale(&self, current_offset: u64) -> (r: bool)
        ensures
            r == (current_offset >= self.end_offset),
    {
        current_offset >= self.end_offset
    }
}

/// The `.in-flight` file that belongs to an inbox.
pub open spec fn in_flight_path(inbox: PathView) -> PathView {
    sibling_path(inbox, ".in-flight"@)
}

/// The `.in-flight` file that belongs to the inbox at `inbox`: in the same directory.
pub fn in_flight_file_for(inbox: &FilePath) -> (r: FilePath)
    ensures
        r@ == in_flight_path(inbox@),
{
    proof {
        reveal_strlit(".in-flight");
        assert(is_plain(".in-flight"@));
    }
    inbox.sibling(".in-flight")
}

/// A record tells its entry: the line, where it stands, the line's digest and the time of delivery.
pub proof fn records_tell_their_entries(
    raw_line: Seq<char>,
    start_offset: u64,
    end_offset: u64,
    secs: u64,
)
    ensures
        ({
            let record = in_flight_record(raw_line, start_offset, end_offset, secs);
            &&& record.raw_line == raw_line
            &&& record.start_offset == start_offset
            &&& record.end_offset == end_offset
            &&& record.entry_id == hex_text(sha256_digest(encode_utf8(raw_line)))
            &&& record.delivered_at == calendar::iso8601(secs)
        }),
{
}

/// Different digests have different identifiers: the bytes can be read back from their digits.
pub proof fn hex_text_reads_back(data: Seq<u8>)
    ensures
        hex_text(data).len() == 2 * data.len(),
        forall|i: int| #![trigger data[i]]
            0 <= i < data.len() ==> hex_value(hex_text(data)[2 * i]) is Some && hex_value(
                hex_text(data)[2 * i + 1],
            ) is Some && data[i] == 16 * hex_value(hex_text(data)[2 * i])->0 + hex_value(
                hex_text(data)[2 * i + 1],
            )->0,
{
    assert forall|i: int| #![trigger data[i]] 0 <= i < data.len() implies hex_value(
        hex_text(data)[2 * i],
    ) is Some && hex_value(hex_text(data)[2 * i + 1]) is Some && data[i] == 16 * hex_value(
        hex_text(data)[2 * i],
    )->0 + hex_value(hex_text(data)[2 * i + 1])->0 by {
        let b = data[i] as int;
        assert((2 * i) / 2 == i && (2 * i + 1) / 2 == i);
        assert((2 * i) % 2 == 0 && (2 * i + 1) % 2 == 1);
        assert(hex_text(data)[2 * i] == hex_digit(b / 16));
        assert(hex_text(data)[2 * i + 1] == hex_digit(b % 16));
        lemma_hex_digit(b / 16);
        lemma_hex_digit(b % 16);
    }
}

} // verus!
