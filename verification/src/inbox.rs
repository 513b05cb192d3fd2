//! Byte-offset reader of a line-based inbox.
//!
//! Reads one line at a time from a JSONL file. The position is kept in a companion
//! `.inbox-offset` file, and reading does not move it: the caller calls [`acknowledge`] once the
//! agent has shown that it processed the entry. A crash between delivery and acknowledgement
//! therefore loses nothing.
//!
//! Each line is either a JSON-encoded string (it starts with `"`), which is unwrapped to the text
//! it encodes, or plain text, which is delivered as it stands. A message that holds line breaks is
//! written as a JSON string, so that it takes one line.

use vstd::prelude::*;
use vstd::slice::slice_subrange;
use vstd::utf8::{
    char_u32_cast, decode_utf8, encode_scalar, encode_utf8, encode_utf8_decode_utf8,
    encode_utf8_valid_utf8, valid_utf8,
};

use crate::error::{ErrorView, HeartbeatError};
use crate::json;
use crate::json_grammar::{
    ascii_quoted, ascii_quoted_is_string_text, quoted_is_string_text, string_text,
    strings_denote_one_string,
};
use crate::paths::{is_plain, FilePath};
use crate::session_dir::{
    apply, offset_path, replay, replay_push, DirView, Effect, EffectView, FileBytes, FileBytesView,
    FileText, FileTextView, Plan, SessionDir,
};
use crate::text;

verus! {

/// An entry of the inbox, and where it stands.
#[derive(Debug, PartialEq)]
pub struct InboxEntry {
    /// The text that the agent sees.
    pub decoded: String,
    /// The line as it stands in the inbox, trimmed and not decoded.
    pub raw_line: String,
    /// Byte offset of the line's first byte.
    pub start_offset: u64,
    /// Byte offset of the first byte after the line, its newline included.
    pub end_offset: u64,
}

/// What an [`InboxEntry`] holds.
#[verifier::ext_equal]
pub struct EntryView {
    pub decoded: Seq<char>,
    pub raw_line: Seq<char>,
    pub start_offset: u64,
    pub end_offset: u64,
}

impl View for InboxEntry {
    type V = EntryView;

    open spec fn view(&self) -> EntryView {
        EntryView {
            decoded: self.decoded@,
            raw_line: self.raw_line@,
            start_offset: self.start_offset,
            end_offset: self.end_offset,
        }
    }
}

impl Clone for InboxEntry {
    fn clone(&self) -> (r: Self)
        ensures
            r@ == self@,
    {
        InboxEntry {
            decoded: self.decoded.clone(),
            raw_line: self.raw_line.clone(),
            start_offset: self.start_offset,
            end_offset: self.end_offset,
        }
    }
}

/// The text of `bytes`, read as UTF-8, with a replacement character for what is not UTF-8.
pub uninterp spec fn lossy_text(bytes: Seq<u8>) -> Seq<char>;

/// What `String::from_utf8_lossy` of the standard library gives for `bytes`: a function of the
/// bytes alone, the text that they encode where they are valid UTF-8, and else a text with U+FFFD
/// in it. Where that stands, and what stands round it, is left unsaid.
#[verifier::external_body]
fn decode_lossy(bytes: &[u8]) -> (r: String)
    ensures
        r@ == lossy_text(bytes@),
        valid_utf8(bytes@) ==> r@ == decode_utf8(bytes@),
        !valid_utf8(bytes@) ==> r@.contains('\u{FFFD}'),
{
    String::from_utf8_lossy(bytes).into_owned()
}

/// The first index from `i` on at which a newline stands; the length where there is none.
pub open spec fn line_end(bytes: Seq<u8>, i: int) -> int
    decreases bytes.len() - i,
{
    if i >= bytes.len() {
        bytes.len() as int
    } else if bytes[i] == 10 {
        i
    } else {
        line_end(bytes, i + 1)
    }
}

/// Where the line after the one that starts at `i` starts. The rest of the bytes is a line of its
/// own where no newline ends it.
pub open spec fn next_line(bytes: Seq<u8>, i: int) -> int {
    let end = line_end(bytes, i);
    if end < bytes.len() {
        end + 1
    } else {
        end
    }
}

/// The bytes of the line that starts at `i`, without its newline.
pub open spec fn line_bytes(bytes: Seq<u8>, i: int) -> Seq<u8> {
    bytes.subrange(i, line_end(bytes, i))
}

/// The trimmed text of the line that starts at `i`. The line is found in the bytes, and only its
/// own bytes are decoded.
pub open spec fn line_text(bytes: Seq<u8>, i: int) -> Seq<char> {
    text::trimmed(lossy_text(line_bytes(bytes, i)))
}

/// What the agent sees of a line: the string that it encodes where it starts with `"` and is the
/// JSON text of a string, else the line itself.
pub open spec fn decoded_text(line: Seq<char>) -> Seq<char> {
    if line.len() > 0 && line[0] == '"' {
        match json::json_string(line) {
            Some(s) => s,
            None => line,
        }
    } else {
        line
    }
}

/// A line ends within the bytes, and the next one starts after it.
pub proof fn lemma_next_line(bytes: Seq<u8>, i: int)
    requires
        0 <= i < bytes.len(),
    ensures
        i <= line_end(bytes, i) <= bytes.len(),
        i < next_line(bytes, i) <= bytes.len(),
    decreases bytes.len() - i,
{
    if bytes[i] != 10 {
        if i + 1 < bytes.len() {
            lemma_next_line(bytes, i + 1);
        }
    }
}

/// Whether `line` is a way to write `message` into the inbox: as the JSON text of a string, in any
/// of the ways there are, or as it stands where it is not empty, has no white space at either end
/// and is not such text itself. White space round it does not matter.
pub open spec fn writes(line: Seq<char>, message: Seq<char>) -> bool {
    ||| string_text(text::trimmed(line), message)
    ||| text::trimmed(line) == message && message.len() > 0 && no_string_text(message)
}

/// Whether `t` is not the JSON text of a string.
pub open spec fn no_string_text(t: Seq<char>) -> bool {
    forall|s: Seq<char>| !#[trigger] string_text(t, s)
}

/// Whether a line is read as the JSON grammar has it, where it is read as JSON at all.
pub open spec fn line_reads(line: Seq<char>) -> bool {
    line.len() > 0 && line[0] == '"' ==> json::reads_strings(line)
}

/// The agent sees what a line denotes: the string, where the line is the JSON text of one, and else
/// the line as it stands.
pub proof fn lines_are_delivered_as_what_they_denote(line: Seq<char>)
    requires
        line_reads(line),
    ensures
        forall|s: Seq<char>| #[trigger] string_text(line, s) ==> decoded_text(line) == s,
        no_string_text(line) && (line.len() > 0 ==> !text::is_white_space(line.last()))
            ==> decoded_text(line) == line,
{
}

/// Every line that is not blank writes one message, and no other.
pub proof fn every_line_writes_one_message(line: Seq<char>)
    requires
        text::trimmed(line).len() > 0,
    ensures
        exists|message: Seq<char>| writes(line, message),
        forall|a: Seq<char>, b: Seq<char>| #[trigger]
            writes(line, a) && #[trigger] writes(line, b) ==> a == b,
{
    let t = text::trimmed(line);
    if no_string_text(t) {
        assert(writes(line, t));
    } else {
        let s = choose|s: Seq<char>| string_text(t, s);
        assert(writes(line, s));
    }
    assert forall|a: Seq<char>, b: Seq<char>| #[trigger]
        writes(line, a) && #[trigger] writes(line, b) implies a == b by {
        if string_text(t, a) && string_text(t, b) {
            strings_denote_one_string(t, a, b);
        }
    }
}

/// Whether the line that starts at `i` is UTF-8 text with nothing but white space in it.
pub open spec fn blank_line(bytes: Seq<u8>, i: int) -> bool {
    valid_utf8(line_bytes(bytes, i)) && text::trimmed(decode_utf8(line_bytes(bytes, i))).len() == 0
}

/// Where the first line starts, at or after `start`, that is not blank.
pub open spec fn text_at(bytes: Seq<u8>, start: int) -> Option<int>
    decreases bytes.len() - start,
{
    if start < 0 || start >= bytes.len() {
        None
    } else if blank_line(bytes, start) {
        proof {
            lemma_next_line(bytes, start);
        }
        text_at(bytes, next_line(bytes, start))
    } else {
        Some(start)
    }
}

/// Where each blank line ends that stands before the first line, at or after `start`, that is not
/// blank.
pub open spec fn blank_line_ends(bytes: Seq<u8>, start: int) -> Seq<u64>
    decreases bytes.len() - start,
{
    if start < 0 || start >= bytes.len() {
        Seq::empty()
    } else if blank_line(bytes, start) {
        proof {
            lemma_next_line(bytes, start);
        }
        seq![next_line(bytes, start) as u64] + blank_line_ends(bytes, next_line(bytes, start))
    } else {
        Seq::empty()
    }
}

/// Where, in the inbox of the directory `d`, the first line starts at or after the cursor that is
/// not blank.
pub open spec fn next_text_at(d: DirView) -> Option<int> {
    match (d.inbox, cursor_of(d)) {
        (FileBytesView::Bytes(bytes), Ok(cursor)) => text_at(bytes, cursor_value(cursor) as int),
        _ => None,
    }
}

/// Whether the first line at or after the cursor of the directory `d` that is not blank is the
/// UTF-8 text `line`.
pub open spec fn next_text_is(d: DirView, line: Seq<char>) -> bool {
    match (d.inbox, next_text_at(d)) {
        (FileBytesView::Bytes(bytes), Some(i)) => line_bytes(bytes, i) == encode_utf8(line),
        _ => false,
    }
}

/// Whether the inbox and the cursor of the directory `d` can be read, and only blank lines are
/// left.
pub open spec fn only_blank_lines_left(d: DirView) -> bool {
    d.inbox is Bytes && cursor_of(d) is Ok && next_text_at(d) is None
}

/// Whether the cursor of the directory `d` can be read and stands at `at`.
pub open spec fn cursor_at(d: DirView, at: int) -> bool {
    cursor_of(d) matches Ok(cursor) && cursor_value(cursor) == at
}

/// Whether `bytes` are decoded to the text that they encode where they are valid UTF-8, and else
/// to a text that shows it.
pub open spec fn decodes_faithfully(bytes: Seq<u8>) -> bool {
    &&& valid_utf8(bytes) ==> lossy_text(bytes) == decode_utf8(bytes)
    &&& !valid_utf8(bytes) ==> lossy_text(bytes).contains('\u{FFFD}')
}

/// Whether each line that is looked at to find the first entry at or after `start` is decoded
/// faithfully.
pub open spec fn reads_faithfully(bytes: Seq<u8>, start: int) -> bool
    decreases bytes.len() - start,
{
    if start < 0 || start >= bytes.len() {
        true
    } else {
        proof {
            lemma_next_line(bytes, start);
        }
        &&& decodes_faithfully(line_bytes(bytes, start))
        &&& line_text(bytes, start).len() == 0 ==> reads_faithfully(bytes, next_line(bytes, start))
    }
}

/// Whether each line that is looked at to find the next entry of the directory `d` is decoded
/// faithfully.
pub open spec fn next_reads_faithfully(d: DirView) -> bool {
    match (d.inbox, cursor_of(d)) {
        (FileBytesView::Bytes(bytes), Ok(cursor)) => reads_faithfully(
            bytes,
            cursor_value(cursor) as int,
        ),
        _ => true,
    }
}

/// The first entry at or after the byte at `start`: lines with nothing but white space are passed
/// over.
pub open spec fn first_entry(bytes: Seq<u8>, start: int) -> Option<EntryView>
    decreases bytes.len() - start,
{
    if start < 0 || start >= bytes.len() {
        None
    } else if line_text(bytes, start).len() == 0 {
        proof {
            lemma_next_line(bytes, start);
        }
        first_entry(bytes, next_line(bytes, start))
    } else {
        Some(
            EntryView {
                decoded: decoded_text(line_text(bytes, start)),
                raw_line: line_text(bytes, start),
                start_offset: start as u64,
                end_offset: next_line(bytes, start) as u64,
            },
        )
    }
}

/// Where each blank line ends that stands before the first entry at or after `start`.
pub open spec fn blank_ends(bytes: Seq<u8>, start: int) -> Seq<u64>
    decreases bytes.len() - start,
{
    if start < 0 || start >= bytes.len() {
        Seq::empty()
    } else if line_text(bytes, start).len() == 0 {
        proof {
            lemma_next_line(bytes, start);
        }
        seq![next_line(bytes, start) as u64] + blank_ends(bytes, next_line(bytes, start))
    } else {
        Seq::empty()
    }
}

/// The cursor of the directory `d`, where it has one.
pub open spec fn cursor_of(d: DirView) -> Result<Option<u64>, ErrorView> {
    match d.offset {
        FileTextView::Missing => Ok(None),
        FileTextView::Failed(reason) => Err(
            ErrorView::OffsetRead { path: offset_path(d.inbox_path).text, source: reason },
        ),
        FileTextView::Text(content) => match text::unsigned(text::trimmed(content)) {
            Some(offset) => Ok(Some(offset)),
            None => Err(
                ErrorView::OffsetCorrupt {
                    path: offset_path(d.inbox_path).text,
                    content: text::trimmed(content),
                },
            ),
        },
    }
}

/// The cursor, with zero for none.
pub open spec fn cursor_value(cursor: Option<u64>) -> u64 {
    match cursor {
        Some(offset) => offset,
        None => 0,
    }
}

/// The writes that move the cursor to each of `ends` in turn.
pub open spec fn cursor_moves(ends: Seq<u64>) -> Seq<EffectView> {
    ends.map_values(|end: u64| EffectView::WriteOffset(end))
}

/// What [`read_next_entry`] comes to in the directory `d`.
pub open spec fn next_entry(d: DirView) -> Plan<Option<EntryView>> {
    match d.inbox {
        FileBytesView::Missing => Plan { result: Ok(None), effects: Seq::empty() },
        FileBytesView::Failed(reason) => Plan {
            result: Err(ErrorView::InboxRead(reason)),
            effects: Seq::empty(),
        },
        FileBytesView::Bytes(bytes) => match cursor_of(d) {
            Err(e) => Plan { result: Err(e), effects: Seq::empty() },
            Ok(cursor) => Plan {
                result: Ok(first_entry(bytes, cursor_value(cursor) as int)),
                effects: cursor_moves(blank_ends(bytes, cursor_value(cursor) as int)),
            },
        },
    }
}

/// What [`acknowledge`] comes to in the directory `d`.
pub open spec fn acknowledgement(d: DirView, new_offset: u64) -> Plan<()> {
    match cursor_of(d) {
        Err(e) => Plan { result: Err(e), effects: Seq::empty() },
        Ok(cursor) => Plan {
            result: Ok(()),
            effects: if new_offset < cursor_value(cursor) {
                seq![EffectView::RemoveInFlight]
            } else {
                seq![EffectView::WriteOffset(new_offset), EffectView::RemoveInFlight]
            },
        },
    }
}

/// What a result of [`read_next_entry`] says.
pub open spec fn entry_result(
    r: Result<Option<InboxEntry>, HeartbeatError>,
) -> Result<Option<EntryView>, ErrorView> {
    match r {
        Ok(Some(entry)) => Ok(Some(entry@)),
        Ok(None) => Ok(None),
        Err(e) => Err(e@),
    }
}

/// What a result with a plain value says.
pub open spec fn plain_result<T>(r: Result<T, HeartbeatError>) -> Result<T, ErrorView> {
    match r {
        Ok(value) => Ok(value),
        Err(e) => Err(e@),
    }
}

/// The first index from `start` on at which a newline stands; the length where there is none.
fn find_line_end(bytes: &Vec<u8>, start: usize) -> (r: usize)
    requires
        start <= bytes.len(),
    ensures
        r == line_end(bytes@, start as int),
        start <= r <= bytes.len(),
{
    let mut i: usize = start;
    while i < bytes.len() && bytes[i] != 10
        invariant
            start <= i <= bytes.len(),
            line_end(bytes@, start as int) == line_end(bytes@, i as int),
        decreases bytes.len() - i,
    {
        i = i + 1;
    }
    i
}

/// What lies ahead in the inbox: where the blank lines before the first entry end, and the entry.
fn look_ahead(bytes: &Vec<u8>, start: u64) -> (r: (Vec<u64>, Option<InboxEntry>))
    ensures
        r.0@ == blank_ends(bytes@, start as int),
        match r.1 {
            Some(entry) => first_entry(bytes@, start as int) == Some(entry@),
            None => first_entry(bytes@, start as int) is None,
        },
        reads_faithfully(bytes@, start as int),
        r.1 matches Some(entry) ==> forall|s: Seq<char>|
            entry.raw_line@ == #[trigger] json::quoted(s) ==> entry.decoded@ == s,
        r.1 matches Some(entry) ==> line_reads(entry.raw_line@),
{
    let mut blanks: Vec<u64> = Vec::new();
    if start >= bytes.len() as u64 {
        return (blanks, None);
    }
    let mut pos: usize = start as usize;
    while pos < bytes.len()
        invariant
            pos <= bytes.len(),
            first_entry(bytes@, start as int) == first_entry(bytes@, pos as int),
            blank_ends(bytes@, start as int) == blanks@ + blank_ends(bytes@, pos as int),
            reads_faithfully(bytes@, pos as int) ==> reads_faithfully(bytes@, start as int),
        decreases bytes.len() - pos,
    {
        proof {
            lemma_next_line(bytes@, pos as int);
        }
        let end = find_line_end(bytes, pos);
        let next: usize = if end < bytes.len() {
            end + 1
        } else {
            end
        };
        let content = decode_lossy(slice_subrange(bytes.as_slice(), pos, end));
        assert(decodes_faithfully(line_bytes(bytes@, pos as int)));
        let line = text::trim(content.as_str());
        if line.unicode_len() == 0 {
            blanks.push(next as u64);
            assert(blanks@ + blank_ends(bytes@, next as int) =~= blanks@.drop_last() + (seq![
                next as u64,
            ] + blank_ends(bytes@, next as int)));
            pos = next;
        } else {
            let entry = InboxEntry {
                decoded: decode_line(line),
                raw_line: line.to_owned(),
                start_offset: pos as u64,
                end_offset: next as u64,
            };
            assert(blank_ends(bytes@, start as int) =~= blanks@);
            return (blanks, Some(entry));
        }
    }
    assert(blank_ends(bytes@, start as int) =~= blanks@);
    (blanks, None)
}

/// Moves the cursor to each of `ends` in turn.
fn move_cursor(dir: &mut SessionDir, ends: Vec<u64>)
    ensures
        final(dir)@ == replay(old(dir)@, cursor_moves(ends@)),
        final(dir).log() == old(dir).log() + cursor_moves(ends@),
{
    let mut i: usize = 0;
    assert(cursor_moves(ends@.take(0)) =~= Seq::<EffectView>::empty());
    while i < ends.len()
        invariant
            i <= ends.len(),
            dir@ == replay(old(dir)@, cursor_moves(ends@.take(i as int))),
            dir.log() == old(dir).log() + cursor_moves(ends@.take(i as int)),
        decreases ends.len() - i,
    {
        proof {
            replay_push(
                old(dir)@,
                cursor_moves(ends@.take(i as int)),
                EffectView::WriteOffset(ends[i as int]),
            );
            assert(cursor_moves(ends@.take(i as int + 1)) =~= cursor_moves(
                ends@.take(i as int),
            ).push(EffectView::WriteOffset(ends[i as int])));
        }
        write_offset(dir, ends[i]);
        i = i + 1;
    }
    assert(ends@.take(i as int) =~= ends@);
}

/// Reads the next entry of the inbox and leaves the cursor where it is.
///
/// There is none where the inbox is missing or fully consumed. Lines with nothing but white space
/// are passed over, and the cursor is moved past each of them at once: there is nothing in them to
/// lose. A message that was written into the first line that is not blank comes back as it was,
/// however it was written.
pub fn read_next_entry(dir: &mut SessionDir) -> (r: Result<Option<InboxEntry>, HeartbeatError>)
    ensures
        entry_result(r) == next_entry(old(dir)@).result,
        final(dir)@ == replay(old(dir)@, next_entry(old(dir)@).effects),
        final(dir).log() == old(dir).log() + next_entry(old(dir)@).effects,
        forall|line: Seq<char>, message: Seq<char>|
            #[trigger] next_text_is(old(dir)@, line) && #[trigger] writes(line, message)
                ==> (r matches Ok(Some(entry)) && entry.decoded@ == message && entry.raw_line@
                == text::trimmed(line)),
        next_text_at(old(dir)@) matches Some(i) ==> {
            &&& r matches Ok(Some(entry)) && entry.start_offset == i && entry.end_offset
                == next_line(old(dir)@.inbox->Bytes_0, i)
            &&& cursor_at(final(dir)@, i)
        },
        only_blank_lines_left(old(dir)@) ==> r matches Ok(None),
        next_reads_faithfully(old(dir)@),
        r matches Ok(Some(entry)) ==> {
            &&& line_reads(entry.raw_line@)
            &&& forall|s: Seq<char>| #[trigger]
                string_text(entry.raw_line@, s) ==> entry.decoded@ == s
            &&& no_string_text(entry.raw_line@) ==> entry.decoded@ == entry.raw_line@
        },
{
    assert(dir.log() + Seq::<EffectView>::empty() =~= dir.log());
    let ahead = match &dir.inbox {
        FileBytes::Missing => {
            return Ok(None);
        },
        FileBytes::Failed(reason) => {
            return Err(HeartbeatError::InboxRead(reason.clone()));
        },
        FileBytes::Bytes(bytes) => match read_offset(dir) {
            Err(e) => {
                return Err(e);
            },
            Ok(cursor) => {
                let start: u64 = match cursor {
                    Some(offset) => offset,
                    None => 0,
                };
                look_ahead(bytes, start)
            },
        },
    };
    proof {
        let bytes = dir.inbox->Bytes_0@;
        let start = cursor_value(cursor_of(dir@)->Ok_0) as int;
        assert(dir.inbox->Bytes_0.len() <= u64::MAX);
        reading_follows_the_bytes(bytes, start);
        reading_stops_at_the_entry(dir@);
        if ahead.1 is Some {
            lemma_entry_is_trimmed(bytes, start);
            lines_are_delivered_as_what_they_denote(ahead.1->0.raw_line@);
        }
        assert forall|line: Seq<char>, message: Seq<char>| #[trigger]
            next_text_is(dir@, line) && #[trigger] writes(line, message) implies (ahead.1 matches
            Some(entry) && entry.decoded@ == message && entry.raw_line@ == text::trimmed(line)) by {
            encode_utf8_valid_utf8(line);
            encode_utf8_decode_utf8(line);
        }
    }
    move_cursor(dir, ahead.0);
    Ok(ahead.1)
}

proof fn lemma_entry_is_trimmed(bytes: Seq<u8>, start: int)
    ensures
        first_entry(bytes, start) matches Some(entry) ==> {
            &&& entry.raw_line.len() > 0
            &&& !text::is_white_space(entry.raw_line.last())
            &&& entry.decoded == decoded_text(entry.raw_line)
        },
    decreases bytes.len() - start,
{
    if 0 <= start < bytes.len() {
        lemma_next_line(bytes, start);
        text::trimming_cuts_white_space(lossy_text(line_bytes(bytes, start)));
        if line_text(bytes, start).len() == 0 {
            lemma_entry_is_trimmed(bytes, next_line(bytes, start));
        }
    }
}

proof fn lemma_newline_byte(scalar: u32)
    requires
        scalar != 10,
    ensures
        !encode_scalar(scalar).contains(10),
{
    assert(scalar <= 0x7F ==> (scalar & 0x7F) as u8 == scalar) by (bit_vector);
    assert((0xC0u8 | ((scalar >> 6) & 0x1F) as u8) != 10) by (bit_vector);
    assert((0xE0u8 | ((scalar >> 12) & 0x0F) as u8) != 10) by (bit_vector);
    assert((0xF0u8 | ((scalar >> 18) & 0x07) as u8) != 10) by (bit_vector);
    assert((0x80u8 | (scalar & 0x3F) as u8) != 10) by (bit_vector);
    assert((0x80u8 | ((scalar >> 6) & 0x3F) as u8) != 10) by (bit_vector);
    assert((0x80u8 | ((scalar >> 12) & 0x3F) as u8) != 10) by (bit_vector);
}

proof fn lemma_no_newline_byte(s: Seq<char>)
    requires
        !s.contains('\n'),
    ensures
        !encode_utf8(s).contains(10),
    decreases s.len(),
{
    if s.len() > 0 {
        let head = encode_scalar(s[0] as u32);
        let tail = encode_utf8(s.drop_first());
        assert(s.contains(s[0]));
        assert(!s.drop_first().contains('\n')) by {
            if s.drop_first().contains('\n') {
                let i = choose|i: int| 0 <= i < s.len() - 1 && s.drop_first()[i] == '\n';
                assert(s[i + 1] == '\n');
            }
        }
        lemma_no_newline_byte(s.drop_first());
        char_u32_cast(s[0], s[0] as u32);
        assert(s[0] != '\n');
        lemma_newline_byte(s[0] as u32);
        assert forall|i: int| 0 <= i < (head + tail).len() implies (head + tail)[i] != 10 by {
            if i < head.len() {
                assert(head.contains(head[i]));
            } else {
                assert(tail.contains(tail[i - head.len()]));
            }
        }
    }
}

proof fn lemma_line_end_at(bytes: Seq<u8>, i: int, end: int)
    requires
        0 <= i <= end <= bytes.len(),
        forall|k: int| i <= k < end ==> bytes[k] != 10,
        end < bytes.len() ==> bytes[end] == 10,
    ensures
        line_end(bytes, i) == end,
    decreases end - i,
{
    if i < end {
        lemma_line_end_at(bytes, i + 1, end);
    }
}

/// Text without a newline that is appended to the inbox, with a newline after it or as the inbox's
/// last bytes, is a line of its own.
pub proof fn written_text_is_a_line(before: Seq<u8>, line: Seq<char>, after: Seq<u8>)
    requires
        !line.contains('\n'),
        after.len() == 0 || after[0] == 10,
    ensures
        ({
            let bytes = before + encode_utf8(line) + after;
            let start = before.len() as int;
            &&& bytes.subrange(start, line_end(bytes, start)) == encode_utf8(line)
            &&& next_line(bytes, start) == start + encode_utf8(line).len() + if after.len() == 0 {
                0int
            } else {
                1int
            }
        }),
{
    let text = encode_utf8(line);
    let bytes = before + text + after;
    let start = before.len() as int;
    let end = start + text.len();
    lemma_no_newline_byte(line);
    assert forall|k: int| start <= k < end implies bytes[k] != 10 by {
        assert(text.contains(text[k - start]));
    }
    lemma_line_end_at(bytes, start, end);
    assert(bytes.subrange(start, end) =~= text);
}

/// Every message can be written: its JSON string takes one line, and reads as the message.
pub proof fn quoted_text_writes(message: Seq<char>)
    ensures
        writes(json::quoted(message), message),
        !json::quoted(message).contains('\n'),
{
    let line = json::quoted(message);
    json::quoted_is_one_line(message);
    quoted_is_string_text(message);
    assert(line[0] == '"' && line.last() == '"');
    assert(text::trim_start_text(line) == line);
    assert(text::trim_end_text(line) == line);
}

/// Every message can be written in plain ASCII, with all else escaped: that takes one line, too,
/// and reads as the message.
pub proof fn ascii_text_writes(message: Seq<char>)
    ensures
        writes(ascii_quoted(message), message),
        !ascii_quoted(message).contains('\n'),
{
    let line = ascii_quoted(message);
    ascii_quoted_is_string_text(message);
    assert(text::trim_start_text(line) == line);
    assert(text::trim_end_text(line) == line);
}

/// In whatever way a message is written as the JSON text of a string, with white space round it or
/// without, that is a way to write it into the inbox.
pub proof fn any_string_text_writes(before: Seq<char>, t: Seq<char>, after: Seq<char>, s: Seq<char>)
    requires
        string_text(t, s),
        text::all_white_space(before),
        text::all_white_space(after),
    ensures
        writes(before + t + after, s),
{
    text::trimming_finds_the_text(before, t, after);
}

/// The cursor that was written is the cursor that is read back.
pub proof fn offset_reads_back(d: DirView, offset: u64)
    ensures
        cursor_of(apply(d, EffectView::WriteOffset(offset))) == Ok::<_, ErrorView>(Some(offset)),
{
    text::decimal_reads_back(offset);
}

/// An acknowledgement moves the cursor to the entry's end, and never back.
pub proof fn acknowledgement_never_rewinds(d: DirView, new_offset: u64)
    requires
        cursor_of(d) is Ok,
    ensures
        ({
            let before = cursor_value(cursor_of(d)->Ok_0);
            let after = replay(d, acknowledgement(d, new_offset).effects);
            &&& cursor_of(after) is Ok
            &&& cursor_value(cursor_of(after)->Ok_0) == if new_offset < before {
                before
            } else {
                new_offset
            }
            &&& after.in_flight is Missing
        }),
{
    reveal_with_fuel(replay, 4);
    offset_reads_back(d, new_offset);
}

/// An entry stands at or after the place from which it was looked for, and ends after it starts.
pub proof fn entry_lies_ahead(bytes: Seq<u8>, start: int)
    requires
        0 <= start,
        bytes.len() <= u64::MAX,
    ensures
        first_entry(bytes, start) matches Some(entry) ==> start <= entry.start_offset
            < entry.end_offset <= bytes.len(),
    decreases bytes.len() - start,
{
    if start < bytes.len() {
        lemma_next_line(bytes, start);
        if line_text(bytes, start).len() == 0 {
            entry_lies_ahead(bytes, next_line(bytes, start));
        }
    }
}

/// From the start of an entry, that entry is the next one.
pub proof fn entry_is_found_at_its_start(bytes: Seq<u8>, start: int)
    requires
        0 <= start,
        bytes.len() <= u64::MAX,
    ensures
        first_entry(bytes, start) matches Some(entry) ==> first_entry(
            bytes,
            entry.start_offset as int,
        ) == Some(entry),
    decreases bytes.len() - start,
{
    if start < bytes.len() {
        lemma_next_line(bytes, start);
        if line_text(bytes, start).len() == 0 {
            entry_is_found_at_its_start(bytes, next_line(bytes, start));
        }
    }
}

/// To stand after some of the blank lines ahead changes nothing of what comes next.
pub proof fn blank_lines_hide_nothing(bytes: Seq<u8>, start: int, k: int)
    requires
        0 <= start,
        bytes.len() <= u64::MAX,
        0 <= k < blank_ends(bytes, start).len(),
    ensures
        start < blank_ends(bytes, start)[k],
        first_entry(bytes, blank_ends(bytes, start)[k] as int) == first_entry(bytes, start),
    decreases bytes.len() - start,
{
    lemma_next_line(bytes, start);
    if k > 0 {
        blank_lines_hide_nothing(bytes, next_line(bytes, start), k - 1);
    }
}

proof fn lemma_last_blank_end(bytes: Seq<u8>, start: int)
    requires
        0 <= start,
        bytes.len() <= u64::MAX,
    ensures
        first_entry(bytes, start) matches Some(entry) ==> entry.start_offset == if blank_ends(
            bytes,
            start,
        ).len() == 0 {
            start
        } else {
            blank_ends(bytes, start).last() as int
        },
    decreases bytes.len() - start,
{
    if start < bytes.len() {
        lemma_next_line(bytes, start);
        if line_text(bytes, start).len() == 0 {
            let next = next_line(bytes, start);
            lemma_last_blank_end(bytes, next);
            assert(blank_ends(bytes, start) == seq![next as u64] + blank_ends(bytes, next));
        }
    }
}

/// Once the next entry has been read, the cursor stands at its first byte: past every blank line
/// before it, and before the entry.
pub proof fn reading_stops_at_the_entry(d: DirView)
    requires
        d.inbox matches FileBytesView::Bytes(bytes) ==> bytes.len() <= u64::MAX,
    ensures
        next_entry(d).result matches Ok(Some(entry)) ==> cursor_at(
            replay(d, next_entry(d).effects),
            entry.start_offset as int,
        ),
{
    if let Ok(Some(entry)) = next_entry(d).result {
        let bytes = d.inbox->Bytes_0;
        let start = cursor_value(cursor_of(d)->Ok_0) as int;
        let ends = blank_ends(bytes, start);
        let moves = next_entry(d).effects;
        lemma_last_blank_end(bytes, start);
        if ends.len() > 0 {
            assert(moves.last() == EffectView::WriteOffset(ends.last()));
            offset_reads_back(replay(d, moves.drop_last()), ends.last());
        }
    }
}

/// What is found ahead follows from the bytes alone, wherever they are decoded faithfully: the
/// blank lines are passed over, and the first line that is not blank is the next entry.
pub proof fn reading_follows_the_bytes(bytes: Seq<u8>, start: int)
    requires
        0 <= start,
        bytes.len() <= u64::MAX,
        reads_faithfully(bytes, start),
    ensures
        blank_ends(bytes, start) == blank_line_ends(bytes, start),
        match text_at(bytes, start) {
            Some(i) => {
                &&& start <= i < bytes.len()
                &&& decodes_faithfully(line_bytes(bytes, i))
                &&& first_entry(bytes, start) == Some(
                    EntryView {
                        decoded: decoded_text(line_text(bytes, i)),
                        raw_line: line_text(bytes, i),
                        start_offset: i as u64,
                        end_offset: next_line(bytes, i) as u64,
                    },
                )
                &&& i < next_line(bytes, i) <= bytes.len()
            },
            None => first_entry(bytes, start) is None,
        },
    decreases bytes.len() - start,
{
    if start < bytes.len() {
        lemma_next_line(bytes, start);
        if blank_line(bytes, start) {
            reading_follows_the_bytes(bytes, next_line(bytes, start));
        } else if !valid_utf8(line_bytes(bytes, start)) {
            let shown = lossy_text(line_bytes(bytes, start));
            assert(!text::is_white_space('\u{FFFD}'));
            text::trimming_keeps_the_rest(shown, '\u{FFFD}');
            assert(line_text(bytes, start).len() > 0);
        }
    }
}

/// While the cursor is being moved past blank lines, it never stands before where it was, and the
/// same entry is next.
pub proof fn cursor_moves_hide_nothing(d: DirView, k: int)
    requires
        d.inbox matches FileBytesView::Bytes(bytes) && bytes.len() <= u64::MAX,
        cursor_of(d) is Ok,
        0 <= k <= next_entry(d).effects.len(),
    ensures
        ({
            let now = replay(d, next_entry(d).effects.take(k));
            &&& cursor_of(now) is Ok
            &&& cursor_value(cursor_of(d)->Ok_0) <= cursor_value(cursor_of(now)->Ok_0)
            &&& next_entry(now).result == next_entry(d).result
            &&& now == DirView { offset: now.offset, ..d }
        }),
    decreases k,
{
    let bytes = d.inbox->Bytes_0;
    let start = cursor_value(cursor_of(d)->Ok_0) as int;
    let moves = next_entry(d).effects;
    if k == 0 {
        assert(moves.take(0) =~= Seq::<EffectView>::empty());
    } else {
        cursor_moves_hide_nothing(d, k - 1);
        let end = blank_ends(bytes, start)[k - 1];
        assert(moves.take(k) =~= moves.take(k - 1).push(EffectView::WriteOffset(end)));
        replay_push(d, moves.take(k - 1), EffectView::WriteOffset(end));
        offset_reads_back(replay(d, moves.take(k - 1)), end);
        blank_lines_hide_nothing(bytes, start, k - 1);
    }
}

/// The entries at or after the byte at `start`, in order.
pub open spec fn entries(bytes: Seq<u8>, start: int) -> Seq<EntryView>
    decreases bytes.len() - start,
{
    if start < 0 || bytes.len() > u64::MAX {
        Seq::empty()
    } else {
        match first_entry(bytes, start) {
            None => Seq::empty(),
            Some(entry) => {
                proof {
                    entry_lies_ahead(bytes, start);
                }
                seq![entry] + entries(bytes, entry.end_offset as int)
            },
        }
    }
}

proof fn lemma_line_end_in_front(bytes: Seq<u8>, more: Seq<u8>, i: int)
    requires
        0 <= i < bytes.len(),
        bytes.last() == 10,
    ensures
        i <= line_end(bytes, i) < bytes.len(),
        line_end(bytes + more, i) == line_end(bytes, i),
    decreases bytes.len() - i,
{
    if bytes[i] != 10 {
        lemma_line_end_in_front(bytes, more, i + 1);
    }
}

/// What is appended behind whole lines changes nothing of the entries before it: they are read as
/// before, and what was appended comes after them.
pub proof fn appending_keeps_earlier_entries(bytes: Seq<u8>, more: Seq<u8>, start: int)
    requires
        0 <= start <= bytes.len(),
        bytes.len() == 0 || bytes.last() == 10,
        bytes.len() + more.len() <= u64::MAX,
    ensures
        first_entry(bytes + more, start) == match first_entry(bytes, start) {
            Some(entry) => Some(entry),
            None => first_entry(bytes + more, bytes.len() as int),
        },
        entries(bytes + more, start) == entries(bytes, start) + entries(
            bytes + more,
            bytes.len() as int,
        ),
    decreases bytes.len() - start,
{
    let all = bytes + more;
    if start < bytes.len() {
        lemma_line_end_in_front(bytes, more, start);
        lemma_next_line(bytes, start);
        let next = next_line(bytes, start);
        assert(next_line(all, start) == next);
        assert(all.subrange(start, line_end(all, start)) =~= bytes.subrange(
            start,
            line_end(bytes, start),
        ));
        appending_keeps_earlier_entries(bytes, more, next);
        if line_text(bytes, start).len() == 0 {
            assert(entries(all, start) == entries(all, next));
            assert(entries(bytes, start) == entries(bytes, next));
        } else {
            let entry = first_entry(bytes, start)->Some_0;
            assert(entry.end_offset == next);
            assert(entries(all, start) == seq![entry] + entries(all, next));
            assert(entries(bytes, start) == seq![entry] + entries(bytes, next));
            assert(seq![entry] + (entries(bytes, next) + entries(all, bytes.len() as int)) =~= (
            seq![entry] + entries(bytes, next)) + entries(all, bytes.len() as int));
        }
    } else {
        assert(entries(bytes, start) =~= Seq::<EntryView>::empty());
        assert(Seq::<EntryView>::empty() + entries(all, start) =~= entries(all, start));
    }
}

/// Acknowledges an entry: moves the cursor to its end, then removes `.in-flight`.
///
/// A crash between the two leaves an `.in-flight` that ends at or before the cursor, which
/// recovery knows to be stale. The cursor is never moved back: where it is already past
/// `new_offset`, only `.in-flight` is removed.
pub fn acknowledge(dir: &mut SessionDir, new_offset: u64) -> (r: Result<(), HeartbeatError>)
    ensures
        plain_result(r) == acknowledgement(old(dir)@, new_offset).result,
        final(dir)@ == replay(old(dir)@, acknowledgement(old(dir)@, new_offset).effects),
        final(dir).log() == old(dir).log() + acknowledgement(old(dir)@, new_offset).effects,
{
    let ghost d = dir@;
    let ghost log = dir.log();
    let ghost none = Seq::<EffectView>::empty();
    assert(log + none =~= log);
    assert(dir.reached(d, log, none));
    let cursor = match read_offset(dir) {
        Err(e) => {
            return Err(e);
        },
        Ok(cursor) => cursor,
    };
    let current: u64 = match cursor {
        Some(offset) => offset,
        None => 0,
    };
    if new_offset >= current {
        write_offset(dir, new_offset);
    }
    dir.perform(Effect::RemoveInFlight);
    assert(none.push(EffectView::RemoveInFlight) =~= seq![EffectView::RemoveInFlight]);
    assert(none.push(EffectView::WriteOffset(new_offset)).push(EffectView::RemoveInFlight)
        =~= seq![EffectView::WriteOffset(new_offset), EffectView::RemoveInFlight]);
    Ok(())
}

/// What the agent sees of a line of the inbox: the string that it encodes where it starts with `"`
/// and is the JSON text of a string, else the line itself.
pub fn decode_line(line: &str) -> (r: String)
    ensures
        r@ == decoded_text(line@),
        forall|s: Seq<char>| line@ == #[trigger] json::quoted(s) ==> r@ == s,
        forall|s: Seq<char>| #[trigger] string_text(line@, s) ==> r@ == s,
        line@.len() == 0 || line@[0] != '"' ==> r@ == line@,
        no_string_text(line@) && (line@.len() > 0 ==> !text::is_white_space(line@.last())) ==> r@
            == line@,
        line_reads(line@),
{
    let parsed = if line.unicode_len() > 0 && line.get_char(0) == '"' {
        json::parse_string(line)
    } else {
        None
    };
    text_of_line(line, parsed)
}

/// What the agent sees of a line from which `parsed` was read as a JSON string: that, or the line
/// itself where it is none.
pub fn text_of_line(line: &str, parsed: Option<String>) -> (r: String)
    ensures
        r@ == match parsed {
            Some(s) => s@,
            None => line@,
        },
{
    match parsed {
        Some(s) => s,
        None => line.to_owned(),
    }
}

/// The cursor: nothing where there is no `.inbox-offset`, `OffsetCorrupt` where its trimmed content
/// is not a number, `OffsetRead` where it cannot be read.
pub fn read_offset(dir: &SessionDir) -> (r: Result<Option<u64>, HeartbeatError>)
    ensures
        plain_result(r) == cursor_of(dir@),
{
    match &dir.offset {
        FileText::Missing => Ok(None),
        FileText::Failed(reason) => Err(
            HeartbeatError::OffsetRead {
                path: offset_file_for(&dir.inbox_path).text,
                source: reason.clone(),
            },
        ),
        FileText::Text(content) => {
            let number = text::trim(content.as_str());
            match text::parse_unsigned(number) {
                Some(offset) => Ok(Some(offset)),
                None => Err(
                    HeartbeatError::OffsetCorrupt {
                        path: offset_file_for(&dir.inbox_path).text,
                        content: number.to_owned(),
                    },
                ),
            }
        },
    }
}

/// Writes the cursor.
pub fn write_offset(dir: &mut SessionDir, offset: u64)
    ensures
        final(dir)@ == apply(old(dir)@, EffectView::WriteOffset(offset)),
        final(dir).log() == old(dir).log().push(EffectView::WriteOffset(offset)),
        forall|d: DirView, log: Seq<EffectView>, effects: Seq<EffectView>|
            #[trigger] old(dir).reached(d, log, effects) ==> final(dir).reached(
                d,
                log,
                effects.push(EffectView::WriteOffset(offset)),
            ),
{
    dir.perform(Effect::WriteOffset(offset));
}

/// The `.inbox-offset` file that belongs to the inbox at `inbox`: in the same directory.
pub fn offset_file_for(inbox: &FilePath) -> (r: FilePath)
    ensures
        r@ == offset_path(inbox@),
{
    proof {
        reveal_strlit(".inbox-offset");
        assert(is_plain(".inbox-offset"@));
    }
    inbox.sibling(".inbox-offset")
}

/// A line goes on to the first newline, or to the end where there is none; the next line starts
/// behind the newline.
pub proof fn lines_end_at_newlines(bytes: Seq<u8>, i: int)
    requires
        0 <= i <= bytes.len(),
    ensures
        i <= line_end(bytes, i) <= bytes.len(),
        forall|k: int| i <= k < line_end(bytes, i) ==> bytes[k] != 10,
        line_end(bytes, i) < bytes.len() ==> bytes[line_end(bytes, i)] == 10 && next_line(bytes, i)
            == line_end(bytes, i) + 1,
        line_end(bytes, i) == bytes.len() ==> next_line(bytes, i) == bytes.len(),
        line_bytes(bytes, i) == bytes.subrange(i, line_end(bytes, i)),
    decreases bytes.len() - i,
{
    if i < bytes.len() && bytes[i] != 10 {
        lines_end_at_newlines(bytes, i + 1);
    }
}

/// The cursor is what its file says. Without a file there is none. White space round the number
/// does not matter; a file that holds anything but a number is corrupt, and the error shows what it
/// holds.
pub proof fn the_cursor_is_what_its_file_says(
    d: DirView,
    before: Seq<char>,
    content: Seq<char>,
    after: Seq<char>,
    reason: Seq<char>,
)
    requires
        text::all_white_space(before),
        text::all_white_space(after),
        content.len() > 0 ==> !text::is_white_space(content[0]) && !text::is_white_space(
            content.last(),
        ),
    ensures
        cursor_of(DirView { offset: FileTextView::Missing, ..d }) == Ok::<_, ErrorView>(
            None::<u64>,
        ),
        cursor_of(DirView { offset: FileTextView::Failed(reason), ..d }) == Err::<Option<u64>, _>(
            ErrorView::OffsetRead { path: offset_path(d.inbox_path).text, source: reason },
        ),
        ({
            let found = cursor_of(
                DirView { offset: FileTextView::Text(before + content + after), ..d },
            );
            match text::unsigned(content) {
                Some(offset) => found == Ok::<_, ErrorView>(Some(offset)),
                None => found == Err::<Option<u64>, _>(
                    ErrorView::OffsetCorrupt { path: offset_path(d.inbox_path).text, content },
                ),
            }
        }),
        cursor_value(None) == 0,
        forall|offset: u64| #[trigger] cursor_value(Some(offset)) == offset,
{
    text::trimming_finds_the_text(before, content, after);
}

/// An inbox that does not exist has no entry; one that cannot be read is an error, and so is a
/// cursor that cannot be read. None of them touches anything.
pub proof fn reading_fails_without_a_trace(d: DirView)
    ensures
        d.inbox is Missing ==> next_entry(d).result == Ok::<_, ErrorView>(None::<EntryView>)
            && next_entry(d).effects.len() == 0,
        d.inbox matches FileBytesView::Failed(reason) ==> next_entry(d).result == Err::<
            Option<EntryView>,
            _,
        >(ErrorView::InboxRead(reason)) && next_entry(d).effects.len() == 0,
        d.inbox is Bytes && cursor_of(d) is Err ==> next_entry(d).result == Err::<
            Option<EntryView>,
            _,
        >(cursor_of(d)->Err_0) && next_entry(d).effects.len() == 0,
        d.inbox is Bytes && cursor_of(d) is Ok ==> next_entry(d).result is Ok,
{
}

/// An acknowledgement fails only where the cursor cannot be read, and then touches nothing. Else it
/// writes the cursor, unless that stands further on, and then removes `.in-flight`.
pub proof fn acknowledgements_write_the_cursor_first(d: DirView, new_offset: u64)
    ensures
        ({
            let plan = acknowledgement(d, new_offset);
            match cursor_of(d) {
                Err(e) => plan.result == Err::<(), _>(e) && plan.effects.len() == 0,
                Ok(cursor) => {
                    &&& plan.result == Ok::<(), ErrorView>(())
                    &&& plan.effects.last() == EffectView::RemoveInFlight
                    &&& if new_offset >= cursor_value(cursor) {
                        plan.effects.len() == 2 && plan.effects[0] == EffectView::WriteOffset(
                            new_offset,
                        )
                    } else {
                        plan.effects.len() == 1
                    }
                },
            }
        }),
{
}

/// The bytes of an inbox with these lines.
pub open spec fn inbox_bytes(lines: Seq<Seq<char>>) -> Seq<u8>
    decreases lines.len(),
{
    if lines.len() == 0 {
        Seq::empty()
    } else {
        encode_utf8(lines[0]) + seq![10u8] + inbox_bytes(lines.drop_first())
    }
}

/// Whether `line` can stand in an inbox, and is decoded and read as it is.
pub open spec fn line_is_read(line: Seq<char>) -> bool {
    &&& !line.contains('\n')
    &&& decodes_faithfully(encode_utf8(line))
    &&& line_reads(text::trimmed(line))
}

/// Whether these lines write these messages, one after another, with blank lines anywhere.
pub open spec fn lines_write(lines: Seq<Seq<char>>, messages: Seq<Seq<char>>) -> bool
    decreases lines.len(),
{
    if lines.len() == 0 {
        messages.len() == 0
    } else if text::trimmed(lines[0]).len() == 0 {
        lines_write(lines.drop_first(), messages)
    } else {
        messages.len() > 0 && writes(lines[0], messages[0]) && lines_write(
            lines.drop_first(),
            messages.drop_first(),
        )
    }
}

/// The messages that were written into an inbox are its entries: every one of them, in order, and
/// nothing else.
#[verifier::rlimit(30)]
pub proof fn written_messages_are_the_entries(
    before: Seq<u8>,
    lines: Seq<Seq<char>>,
    messages: Seq<Seq<char>>,
)
    requires
        lines_write(lines, messages),
        forall|i: int| 0 <= i < lines.len() ==> line_is_read(#[trigger] lines[i]),
        before.len() + inbox_bytes(lines).len() <= u64::MAX,
    ensures
        ({
            let found = entries(before + inbox_bytes(lines), before.len() as int);
            &&& found.len() == messages.len()
            &&& forall|i: int| 0 <= i < messages.len() ==> (#[trigger] found[i]).decoded
                == messages[i]
        }),
    decreases lines.len(),
{
    let bytes = before + inbox_bytes(lines);
    let start = before.len() as int;
    let found = entries(bytes, start);
    if lines.len() == 0 {
        assert(first_entry(bytes, start) is None);
    } else {
        let line = lines[0];
        let rest = lines.drop_first();
        let tail = seq![10u8] + inbox_bytes(rest);
        let front = before + encode_utf8(line) + seq![10u8];
        assert(line_is_read(lines[0]));
        assert(bytes =~= before + encode_utf8(line) + tail);
        assert(bytes =~= front + inbox_bytes(rest));
        assert forall|i: int| 0 <= i < rest.len() implies line_is_read(#[trigger] rest[i]) by {
            assert(rest[i] == lines[i + 1]);
        }
        written_text_is_a_line(before, line, tail);
        encode_utf8_valid_utf8(line);
        encode_utf8_decode_utf8(line);
        let next = front.len() as int;
        assert(line_bytes(bytes, start) == encode_utf8(line));
        assert(next_line(bytes, start) == next);
        assert(line_text(bytes, start) == text::trimmed(line));
        lemma_next_line(bytes, start);
        if text::trimmed(line).len() == 0 {
            written_messages_are_the_entries(front, rest, messages);
            assert(first_entry(bytes, start) == first_entry(bytes, next));
            assert(entries(bytes, start) == entries(bytes, next));
        } else {
            let m = messages.drop_first();
            written_messages_are_the_entries(front, rest, m);
            text::trimming_cuts_white_space(line);
            lines_are_delivered_as_what_they_denote(text::trimmed(line));
            let entry = first_entry(bytes, start)->0;
            assert(entry.decoded == messages[0]);
            assert(entry.end_offset == next);
            let others = entries(bytes, next);
            assert(found == seq![entry] + others);
            assert forall|i: int| 0 <= i < messages.len() implies (#[trigger] found[i]).decoded
                == messages[i] by {
                if i > 0 {
                    assert(found[i] == others[i - 1]);
                    assert(m[i - 1] == messages[i]);
                }
            }
        }
    }
}

/// An entry is its line: the text of the line's own bytes, trimmed, and what that denotes. It
/// starts at the line's first byte and ends where the next line starts; before it, from where it
/// was looked for, there are only lines with nothing in them.
pub proof fn entries_are_their_lines(bytes: Seq<u8>, start: int)
    requires
        0 <= start,
        bytes.len() <= u64::MAX,
    ensures
        first_entry(bytes, start) matches Some(entry) ==> {
            let at = entry.start_offset as int;
            &&& start <= at < bytes.len()
            &&& entry.raw_line == text::trimmed(
                lossy_text(bytes.subrange(at, line_end(bytes, at))),
            )
            &&& entry.raw_line.len() > 0
            &&& entry.decoded == decoded_text(entry.raw_line)
            &&& entry.end_offset == next_line(bytes, at)
            &&& at > start ==> line_text(bytes, start).len() == 0
        },
        first_entry(bytes, start) is None && start < bytes.len() ==> line_text(bytes, start).len()
            == 0 && first_entry(bytes, next_line(bytes, start)) is None,
    decreases bytes.len() - start,
{
    if start < bytes.len() {
        lemma_next_line(bytes, start);
        if line_text(bytes, start).len() == 0 {
            entries_are_their_lines(bytes, next_line(bytes, start));
        }
    }
}

proof fn lemma_blanks_reach_the_end(bytes: Seq<u8>, start: int)
    requires
        0 <= start,
        bytes.len() <= u64::MAX,
        first_entry(bytes, start) is None,
    ensures
        start < bytes.len() ==> blank_ends(bytes, start).len() > 0 && blank_ends(
            bytes,
            start,
        ).last() == bytes.len(),
        start >= bytes.len() ==> blank_ends(bytes, start).len() == 0,
    decreases bytes.len() - start,
{
    if start < bytes.len() {
        let next = next_line(bytes, start);
        lemma_next_line(bytes, start);
        lemma_blanks_reach_the_end(bytes, next);
        assert(blank_ends(bytes, start) == seq![next as u64] + blank_ends(bytes, next));
    }
}

/// Where no entry is left, reading leaves the cursor behind the last line.
pub proof fn reading_to_the_end_moves_the_cursor_there(d: DirView, bytes: Seq<u8>, at: int)
    requires
        d.inbox == FileBytesView::Bytes(bytes),
        bytes.len() <= u64::MAX,
        cursor_at(d, at),
        next_entry(d).result == Ok::<_, ErrorView>(None::<EntryView>),
    ensures
        cursor_at(
            replay(d, next_entry(d).effects),
            if at < bytes.len() {
                bytes.len() as int
            } else {
                at
            },
        ),
{
    let moves = next_entry(d).effects;
    lemma_blanks_reach_the_end(bytes, at);
    if at < bytes.len() {
        let end = blank_ends(bytes, at).last();
        assert(moves.last() == EffectView::WriteOffset(end));
        offset_reads_back(replay(d, moves.drop_last()), end);
    } else {
        assert(moves =~= Seq::<EffectView>::empty());
    }
}

} // verus!
