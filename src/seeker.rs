//! One-pass index of the records of a message file, and their decoding.
use vstd::prelude::*;

use vstd::utf8::{decode_utf8, valid_utf8};

use crate::text::{string_from_utf8, trim_str, trimmed};
use crate::{ENTRY_DELIMITER, ESCAPE_BYTE};

verus! {

/// Bytes that `u8::is_ascii_whitespace` accepts: space, tab, line feed,
/// form feed and carriage return.
pub open spec fn is_ascii_ws(b: u8) -> bool {
    b == 0x20 || b == 0x09 || b == 0x0a || b == 0x0c || b == 0x0d
}

fn ascii_whitespace(b: u8) -> (r: bool)
    ensures
        r == is_ascii_ws(b),
{
    b == 0x20 || b == 0x09 || b == 0x0a || b == 0x0c || b == 0x0d
}

/// Where one record lies in the source, in mathematical integers.
pub struct Span {
    pub start: nat,
    pub len: nat,
    pub line: nat,
}

/// The state of the indexing pass after some prefix of the source.
pub struct ScanModel {
    /// Offset of the record in progress.
    pub start: nat,
    /// Bytes of the record in progress read so far.
    pub len: nat,
    /// Current line, counted from 1.
    pub line: nat,
    /// Line of the first non-whitespace byte of the record in progress.
    pub first_line: Option<nat>,
    /// Whether the previous byte was an escape.
    pub escape: bool,
    /// The records closed so far, in order.
    pub records: Seq<Span>,
}

pub open spec fn scan_start() -> ScanModel {
    ScanModel { start: 0, len: 0, line: 1, first_line: None, escape: false, records: seq![] }
}

/// The effect of one byte on the indexing pass.
pub open spec fn scan_step(m: ScanModel, b: u8) -> ScanModel {
    let len = m.len + 1;
    let first_line = if m.first_line is None && !is_ascii_ws(b) {
        Some(m.line)
    } else {
        m.first_line
    };
    if b == ESCAPE_BYTE {
        ScanModel { len, first_line, escape: true, ..m }
    } else if b == 0x0a {
        ScanModel { len, first_line, line: m.line + 1, escape: false, ..m }
    } else if b == ENTRY_DELIMITER && !m.escape {
        let line = match first_line {
            Some(l) => l,
            None => m.line,
        };
        ScanModel {
            start: m.start + len,
            len: 0,
            line: m.line,
            first_line: None,
            escape: false,
            records: m.records.push(Span { start: m.start, len, line }),
        }
    } else {
        ScanModel { len, first_line, escape: false, ..m }
    }
}

/// The state of the indexing pass after reading all of `s`.
pub open spec fn scan_model(s: Seq<u8>) -> ScanModel
    decreases s.len(),
{
    if s.len() == 0 {
        scan_start()
    } else {
        scan_step(scan_model(s.drop_last()), s.last())
    }
}

/// The records that the source `s` holds, in order.
pub open spec fn records_of(s: Seq<u8>) -> Seq<Span> {
    scan_model(s).records
}

/// Byte `i` of `s` closes a record: a delimiter not preceded by an escape.
pub open spec fn is_boundary(s: Seq<u8>, i: int) -> bool {
    s[i] == ENTRY_DELIMITER && !(i > 0 && s[i - 1] == ESCAPE_BYTE)
}

/// The number of unescaped delimiters in `s`.
pub open spec fn boundary_count(s: Seq<u8>) -> nat
    decreases s.len(),
{
    if s.len() == 0 {
        0
    } else {
        boundary_count(s.drop_last()) + if is_boundary(s, s.len() - 1) { 1nat } else { 0nat }
    }
}

proof fn lemma_scan_bounds(s: Seq<u8>)
    ensures
        scan_model(s).start + scan_model(s).len == s.len(),
        scan_model(s).line <= s.len() + 1,
        scan_model(s).first_line matches Some(l) ==> l <= scan_model(s).line,
        scan_model(s).escape == (s.len() > 0 && s.last() == ESCAPE_BYTE),
        scan_model(s).records.len() == boundary_count(s),
    decreases s.len(),
{
    if s.len() > 0 {
        lemma_scan_bounds(s.drop_last());
    }
}


/// The number of records indexed from a source is the number of unescaped
/// delimiters in it.
pub proof fn lemma_count_is_boundary_count(s: Seq<u8>)
    ensures
        records_of(s).len() == boundary_count(s),
{
    lemma_scan_bounds(s);
}

/// The records tile the source from its first byte: each starts where the
/// previous one ended, ends with an unescaped delimiter, and lies within the
/// source; the record in progress starts where the last one ended.
pub proof fn lemma_records_contiguous(s: Seq<u8>)
    ensures
        records_of(s).len() > 0 ==> records_of(s)[0].start == 0,
        forall|i: int|
            0 <= i < records_of(s).len() - 1 ==> #[trigger] records_of(s)[i + 1].start
                == records_of(s)[i].start + records_of(s)[i].len,
        forall|i: int|
            0 <= i < records_of(s).len() ==> {
                let r = #[trigger] records_of(s)[i];
                &&& r.len > 0
                &&& r.start + r.len <= s.len()
                &&& is_boundary(s, r.start + r.len - 1)
            },
        records_of(s).len() > 0 ==> scan_model(s).start == records_of(s).last().start
            + records_of(s).last().len,
        records_of(s).len() == 0 ==> scan_model(s).start == 0,
    decreases s.len(),
{
    if s.len() > 0 {
        let p = s.drop_last();
        lemma_records_contiguous(p);
        lemma_scan_bounds(p);
        lemma_scan_bounds(s);
        assert forall|i: int| 0 <= i < records_of(p).len() implies is_boundary(s, #[trigger] records_of(p)[i].start + records_of(p)[i].len - 1) by {
            assert(is_boundary(p, records_of(p)[i].start + records_of(p)[i].len - 1));
            let k = records_of(p)[i].start + records_of(p)[i].len - 1;
            assert(s[k] == p[k]);
            if k > 0 {
                assert(s[k - 1] == p[k - 1]);
            }
        }
        if records_of(s).len() > records_of(p).len() {
            let n = s.len() - 1;
            if n > 0 {
                assert(s[n - 1] == p.last());
            }
            assert(is_boundary(s, n));
        }
    }
}

/// Scanning more bytes never changes the records already indexed: each
/// record's position is fixed once its delimiter has been read.
pub proof fn lemma_records_stable(s: Seq<u8>, t: Seq<u8>)
    ensures
        records_of(s).len() <= records_of(s + t).len(),
        records_of(s) == records_of(s + t).subrange(0, records_of(s).len() as int),
    decreases t.len(),
{
    if t.len() == 0 {
        assert(s + t =~= s);
        assert(records_of(s) =~= records_of(s).subrange(0, records_of(s).len() as int));
    } else {
        let t0 = t.drop_last();
        lemma_records_stable(s, t0);
        assert((s + t).drop_last() =~= s + t0);
        let a = records_of(s + t0);
        let b = records_of(s + t);
        assert(b.subrange(0, records_of(s).len() as int) =~= a.subrange(0, records_of(s).len() as int));
    }
}

/// Where one record lies in the source: its offset, its length in bytes
/// (the closing delimiter included), and the line on which its first
/// non-whitespace byte stands.
#[derive(Clone, Copy, Debug, PartialEq, Eq)]
pub struct SeekPos {
    pub start_pos: u64,
    pub len: u64,
    pub line_number: u64,
}

impl View for SeekPos {
    type V = Span;

    open spec fn view(&self) -> Span {
        Span { start: self.start_pos as nat, len: self.len as nat, line: self.line_number as nat }
    }
}

/// The text of a record read from the source, its closing delimiter included:
/// the bytes without their last one, decoded as UTF-8 and trimmed; `None`
/// where they are not valid UTF-8.
pub open spec fn record_text(record: Seq<u8>) -> Option<Seq<char>> {
    let body = if record.len() > 0 { record.drop_last() } else { record };
    if valid_utf8(body) {
        Some(trimmed(decode_utf8(body)))
    } else {
        None
    }
}

/// One record's text and the line on which it starts.
pub struct Entry {
    pub msg: String,
    pub line_number: u64,
}

/// Why a record could not be read.
#[derive(Clone, Copy, Debug, PartialEq, Eq)]
pub enum EntryError {
    /// The record on this line is not valid UTF-8.
    InvalidUtf8 { line_number: u64 },
}

/// Index of the records of a message file.
///
/// The source is handed over in chunks through `scan_chunk`; the seeker keeps
/// the position of each closed record. Bytes after the last delimiter form no
/// record.
pub struct EntrySeeker {
    entries: Vec<SeekPos>,
    entry_pos: u64,
    entry_len: u64,
    current_line: u64,
    first_line: Option<u64>,
    escape: bool,
    source: Ghost<Seq<u8>>,
}

pub open spec fn opt_nat(o: Option<u64>) -> Option<nat> {
    match o {
        Some(v) => Some(v as nat),
        None => None,
    }
}

impl EntrySeeker {
    /// The bytes scanned so far.
    pub closed spec fn source(&self) -> Seq<u8> {
        self.source@
    }

    /// The records indexed so far.
    pub open spec fn records(&self) -> Seq<Span> {
        records_of(self.source())
    }

    closed spec fn model(&self) -> ScanModel {
        ScanModel {
            start: self.entry_pos as nat,
            len: self.entry_len as nat,
            line: self.current_line as nat,
            first_line: opt_nat(self.first_line),
            escape: self.escape,
            records: self.entries@.map_values(|p: SeekPos| p@),
        }
    }

    /// The index matches the pass over the bytes scanned so far.
    pub closed spec fn wf(&self) -> bool {
        &&& self.model() == scan_model(self.source@)
        &&& self.source@.len() < u64::MAX
    }

    /// A seeker that has scanned nothing yet.
    pub fn new() -> (r: EntrySeeker)
        ensures
            r.wf(),
            r.source() == Seq::<u8>::empty(),
            r.records().len() == 0,
    {
        let r = EntrySeeker {
            entries: Vec::new(),
            entry_pos: 0,
            entry_len: 0,
            current_line: 1,
            first_line: None,
            escape: false,
            source: Ghost(Seq::empty()),
        };
        assert(r.model().records =~= seq![]);
        r
    }

    fn scan_byte(&mut self, b: u8)
        requires
            old(self).wf(),
            old(self).source().len() + 1 < u64::MAX,
        ensures
            final(self).wf(),
            final(self).source() == old(self).source().push(b),
    {
        let ghost s = self.source@;
        proof {
            lemma_scan_bounds(s);
            assert(s.push(b).drop_last() =~= s);
        }
        self.entry_len = self.entry_len + 1;
        if self.first_line.is_none() && !ascii_whitespace(b) {
            self.first_line = Some(self.current_line);
        }
        if b == ESCAPE_BYTE {
            self.escape = true;
        } else if b == 0x0a {
            self.current_line = self.current_line + 1;
            self.escape = false;
        } else if b == ENTRY_DELIMITER && !self.escape {
            let line = match self.first_line {
                Some(l) => l,
                None => self.current_line,
            };
            self.entries.push(SeekPos { start_pos: self.entry_pos, len: self.entry_len, line_number: line });
            self.entry_pos = self.entry_pos + self.entry_len;
            self.entry_len = 0;
            self.first_line = None;
            self.escape = false;
        } else {
            self.escape = false;
        }
        self.source = Ghost(s.push(b));
        assert(self.model().records =~= scan_model(self.source@).records);
    }

    /// Scans the next chunk of the source.
    pub fn scan_chunk(&mut self, chunk: &[u8])
        requires
            old(self).wf(),
            old(self).source().len() + chunk@.len() < u64::MAX,
        ensures
            final(self).wf(),
            final(self).source() == old(self).source() + chunk@,
    {
        let mut i: usize = 0;
        while i < chunk.len()
            invariant
                self.wf(),
                i <= chunk@.len(),
                self.source() == old(self).source() + chunk@.subrange(0, i as int),
                old(self).source().len() + chunk@.len() < u64::MAX,
            decreases chunk@.len() - i,
        {
            self.scan_byte(chunk[i]);
            assert(chunk@.subrange(0, i + 1) =~= chunk@.subrange(0, i as int).push(chunk@[i as int]));
            i = i + 1;
        }
        assert(chunk@.subrange(0, i as int) =~= chunk@);
    }

    /// The number of records indexed.
    pub fn count(&self) -> (r: usize)
        requires
            self.wf(),
        ensures
            r == self.records().len(),
            r == boundary_count(self.source()),
    {
        proof {
            lemma_scan_bounds(self.source@);
        }
        self.entries.len()
    }

    /// Where record `index` lies in the source; `None` when nothing is indexed.
    pub fn position(&self, index: usize) -> (r: Option<SeekPos>)
        requires
            self.wf(),
            self.records().len() == 0 || index < self.records().len(),
        ensures
            self.records().len() == 0 ==> r is None,
            self.records().len() > 0 ==> (r matches Some(p) && p@ == self.records()[index as int]),
    {
        if self.entries.len() == 0 {
            None
        } else {
            proof {
                assert(self.entries@.map_values(|p: SeekPos| p@)[index as int] == self.entries@[index as int]@);
            }
            Some(self.entries[index])
        }
    }

    /// Decodes record `index` from `record`, the bytes read at its position.
    ///
    /// With nothing indexed the result is an empty entry on line 0, whatever
    /// the index. The result depends on `index` and `record` alone: the seeker
    /// is not changed, so reading an index again gives the same entry.
    pub fn get_entry(&self, index: usize, record: Vec<u8>) -> (r: Result<Entry, EntryError>)
        requires
            self.wf(),
            self.records().len() == 0 || index < self.records().len(),
        ensures
            self.records().len() == 0 ==> (r matches Ok(e) && e.msg@ == Seq::<char>::empty()
                && e.line_number == 0),
            self.records().len() > 0 ==> match record_text(record@) {
                Some(t) => r matches Ok(e) && e.msg@ == t && e.line_number
                    == self.records()[index as int].line,
                None => r matches Err(EntryError::InvalidUtf8 { line_number })
                    && line_number == self.records()[index as int].line,
            },
    {
        let pos = match self.position(index) {
            None => {
                return Ok(Entry { msg: String::new(), line_number: 0 });
            },
            Some(p) => p,
        };
        let mut body = record;
        if body.len() > 0 {
            body.pop();
        }
        proof {
            if record@.len() > 0 {
                assert(body@ =~= record@.drop_last());
            }
        }
        match string_from_utf8(body) {
            None => Err(EntryError::InvalidUtf8 { line_number: pos.line_number }),
            Some(text) => {
                let msg = trim_str(text.as_str()).to_owned();
                Ok(Entry { msg, line_number: pos.line_number })
            },
        }
    }

    /// Walks the records in index order.
    pub fn entries(self) -> (r: Entries)
        requires
            self.wf(),
        ensures
            r.wf(),
            r.seeker() == self,
            r.index() == 0,
    {
        Entries::new(self)
    }
}

/// A walk over the records of a seeker, in index order, one index at a time.
pub struct Entries {
    seeker: EntrySeeker,
    index: usize,
}

impl Entries {
    pub closed spec fn seeker(&self) -> EntrySeeker {
        self.seeker
    }

    /// The index that the walk hands out next.
    pub closed spec fn index(&self) -> nat {
        self.index as nat
    }

    pub open spec fn wf(&self) -> bool {
        self.seeker().wf()
    }

    /// A walk that starts at the first record.
    pub fn new(seeker: EntrySeeker) -> (r: Entries)
        ensures
            r.seeker() == seeker,
            r.index() == 0,
    {
        Entries { seeker, index: 0 }
    }

    /// The seeker walked over.
    pub fn get_seeker(&self) -> (r: &EntrySeeker)
        ensures
            *r == self.seeker(),
    {
        &self.seeker
    }

    /// Hands out the next index, or `None` once every record has been handed out.
    pub fn next_index(&mut self) -> (r: Option<usize>)
        requires
            old(self).wf(),
        ensures
            final(self).seeker() == old(self).seeker(),
            old(self).index() < old(self).seeker().records().len() ==> r == Some(
                old(self).index() as usize,
            ) && final(self).index() == old(self).index() + 1,
            old(self).index() >= old(self).seeker().records().len() ==> r is None
                && final(self).index() == old(self).index(),
    {
        if self.index >= self.seeker.count() {
            return None;
        }
        let r = self.index;
        self.index = self.index + 1;
        Some(r)
    }

    /// Moves to index `n` and hands it out as `next_index` does.
    pub fn nth_index(&mut self, n: usize) -> (r: Option<usize>)
        requires
            old(self).wf(),
        ensures
            final(self).seeker() == old(self).seeker(),
            n < old(self).seeker().records().len() ==> r == Some(n) && final(self).index() == n + 1,
            n >= old(self).seeker().records().len() ==> r is None && final(self).index() == n,
    {
        self.index = n;
        self.next_index()
    }

    /// The number of records walked over, whatever has been handed out.
    pub fn count(&self) -> (r: usize)
        requires
            self.wf(),
        ensures
            r == self.seeker().records().len(),
    {
        self.seeker.count()
    }
}

} // verus!
