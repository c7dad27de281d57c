//! Decoding of the line-oriented format: a scanner that walks the physical
//! lines of an input, yielding `(key, raw value)` pairs per record, the
//! unfolding of raw values into logical multi-line strings, and the splitting
//! of a logical value into a comma-separated list.

use vstd::prelude::*;
use crate::text::{
    is_cont_byte, find_byte, split_on, trim, strip_cont, lines_of, seq_views,
    is_cont, find_byte_in, split_bytes, trim_bytes, copy_range, append_bytes,
    lemma_find_byte, lemma_strip_cont_skip, lemma_split_on_len,
};

verus! {

/// The reasons a decode fails.
#[derive(Debug)]
pub enum ErrorKind {
    /// A non-blank line held no colon; the payload is the scanner's line
    /// counter at that point.
    MissingColon(usize),
    /// The caller asked for a decode without naming the target shape; the
    /// format is not self-describing.
    AmbiguousType,
    /// An error raised by the caller's data-model binding.
    Custom(String),
}

/// Error that can happen during decoding.
#[derive(Debug)]
pub struct Error {
    /// What went wrong.
    pub kind: ErrorKind,
}

/// The mathematical state of the line scanner: the physical lines not yet
/// consumed, the line counter, and the boundary flags that the sequence
/// termination rule consults.
pub ghost struct ScanState {
    /// The physical lines still to be read, each with its line feed.
    pub rest: Seq<Seq<u8>>,
    /// How many lines the key scanner has read so far.
    pub line_no: int,
    /// Whether the first line of `rest` was already read while scanning the
    /// previous value and now waits to be interpreted.
    pub pending: bool,
    /// Whether the scanner has seen the end of the input.
    pub eof: bool,
    /// Whether the last boundary crossed was clean: a blank line, or nothing
    /// read yet.
    pub empty: bool,
}

/// The state a fresh scanner starts in on the given input.
pub open spec fn init_state(input: Seq<u8>) -> ScanState {
    ScanState {
        rest: lines_of(input),
        line_no: 0,
        pending: false,
        eof: false,
        empty: true,
    }
}

/// What one key-scanning step yields.
pub ghost enum KeyStep {
    /// The input is exhausted.
    Eof,
    /// A blank line ended the record.
    Blank,
    /// A key was found; the line holding it stays pending for the value scan.
    Found(Seq<u8>),
    /// The pending line holds no colon; the payload is the line counter.
    Missing(int),
}

/// One key-scanning step: read a line unless one is pending, consume a blank
/// line as a record boundary, and otherwise return the text before the first
/// colon.
pub open spec fn key_step(st: ScanState) -> (KeyStep, ScanState) {
    if st.rest.len() == 0 {
        (KeyStep::Eof, ScanState { eof: true, ..st })
    } else {
        let st1 = if !st.pending {
            ScanState { line_no: st.line_no + 1, pending: true, ..st }
        } else {
            st
        };
        let line = st1.rest[0];
        if line == seq![10u8] {
            (
                KeyStep::Blank,
                ScanState { rest: st1.rest.skip(1), pending: false, empty: true, ..st1 },
            )
        } else {
            match find_byte(line, 58) {
                None => (KeyStep::Missing(st1.line_no), st1),
                Some(c) => (KeyStep::Found(line.take(c)), ScanState { empty: false, ..st1 }),
            }
        }
    }
}

/// How many lines at the front of `rest` are continuation lines.
pub open spec fn cont_count(rest: Seq<Seq<u8>>) -> nat
    decreases rest.len(),
{
    if rest.len() == 0 || rest[0].len() == 0 || !is_cont_byte(rest[0][0]) {
        0
    } else {
        1 + cont_count(rest.drop_first())
    }
}

pub proof fn lemma_cont_count_le(rest: Seq<Seq<u8>>)
    ensures
        cont_count(rest) <= rest.len(),
    decreases rest.len(),
{
    if rest.len() > 0 && rest[0].len() > 0 && is_cont_byte(rest[0][0]) {
        lemma_cont_count_le(rest.drop_first());
    }
}

/// `cont_count` is exactly the length of the maximal continuation prefix.
pub proof fn lemma_cont_count_exact(rest: Seq<Seq<u8>>, k: int)
    requires
        0 <= k <= rest.len(),
        forall|i: int| 0 <= i < k ==> #[trigger] rest[i].len() > 0 && is_cont_byte(rest[i][0]),
        k < rest.len() ==> rest[k].len() == 0 || !is_cont_byte(rest[k][0]),
    ensures
        cont_count(rest) == k,
    decreases k,
{
    if k == 0 {
    } else {
        let t = rest.drop_first();
        assert(forall|i: int|
            0 <= i < k - 1 ==> #[trigger] t[i].len() > 0 && is_cont_byte(t[i][0]) && t[i]
                == rest[i + 1]);
        if k - 1 < t.len() {
            assert(t[k - 1] == rest[k]);
        }
        lemma_cont_count_exact(t, k - 1);
    }
}

/// The raw value gathered from the pending key line and its continuation
/// lines: everything past the colon, joined, and trimmed once as a whole.
pub open spec fn value_raw(st: ScanState) -> Seq<u8> {
    let line = st.rest[0];
    let c = match find_byte(line, 58) {
        Some(i) => i,
        None => line.len() as int,
    };
    let n = cont_count(st.rest.skip(1));
    trim(line.skip(c + 1) + st.rest.subrange(1, 1 + n as int).flatten())
}

/// The scanner state after the value scan: the key line and its continuation
/// lines are consumed; a stopping line that was looked at stays pending.
pub open spec fn value_step(st: ScanState) -> ScanState {
    let n = cont_count(st.rest.skip(1));
    ScanState {
        rest: st.rest.skip(1 + n as int),
        pending: st.rest.len() > 1 + n,
        ..st
    }
}

/// One record scanned to its end: `(key, raw value)` pairs gathered until a
/// blank line or the end of the input, or the line counter of the first line
/// without a colon.
pub open spec fn record_step(st: ScanState) -> (Result<Seq<(Seq<u8>, Seq<u8>)>, int>, ScanState)
    decreases st.rest.len(),
    via record_step_decreases
{
    let (k, st1) = key_step(st);
    match k {
        KeyStep::Eof => (Ok(seq![]), st1),
        KeyStep::Blank => (Ok(seq![]), st1),
        KeyStep::Missing(n) => (Err(n), st1),
        KeyStep::Found(key) => {
            let raw = value_raw(st1);
            let st2 = value_step(st1);
            let (r, st3) = record_step(st2);
            match r {
                Ok(fields) => (Ok(seq![(key, raw)] + fields), st3),
                Err(n) => (Err(n), st3),
            }
        }
    }
}

#[via_fn]
proof fn record_step_decreases(st: ScanState) {
    let (k, st1) = key_step(st);
    if k is Found {
        lemma_cont_count_le(st1.rest.skip(1));
    }
}

/// Scanning a record consumes lines, and consumes at least one line whenever
/// it yields a field.
pub proof fn lemma_record_step_consumes(st: ScanState)
    ensures
        ({
            let (r, st1) = record_step(st);
            st1.rest.len() <= st.rest.len() && (match r {
                Ok(fields) => fields.len() > 0 ==> st1.rest.len() < st.rest.len(),
                Err(_) => true,
            })
        }),
    decreases st.rest.len(),
{
    let (k, st1) = key_step(st);
    if k is Found {
        lemma_cont_count_le(st1.rest.skip(1));
        let st2 = value_step(st1);
        lemma_record_step_consumes(st2);
    }
}

/// A homogeneous sequence of records scanned with the termination rule: stop
/// cleanly at the end of input or on an empty record; an error raised after a
/// clean boundary ends the sequence silently, any other error propagates.
pub open spec fn records_step(st: ScanState) -> (
    Result<Seq<Seq<(Seq<u8>, Seq<u8>)>>, int>,
    ScanState,
)
    decreases st.rest.len(),
    via records_step_decreases
{
    if st.eof {
        (Ok(seq![]), st)
    } else {
        let (r, st1) = record_step(st);
        match r {
            Ok(fields) => {
                if fields.len() == 0 {
                    (Ok(seq![]), st1)
                } else {
                    let (rr, st2) = records_step(st1);
                    match rr {
                        Ok(recs) => (Ok(seq![fields] + recs), st2),
                        Err(n) => (Err(n), st2),
                    }
                }
            }
            Err(n) => {
                if st1.empty {
                    (Ok(seq![]), st1)
                } else {
                    (Err(n), st1)
                }
            }
        }
    }
}

#[via_fn]
proof fn records_step_decreases(st: ScanState) {
    if !st.eof {
        lemma_record_step_consumes(st);
    }
}

/// The views of a sequence of `(key, raw value)` pairs.
pub open spec fn pairs_view(v: Seq<(Vec<u8>, Vec<u8>)>) -> Seq<(Seq<u8>, Seq<u8>)> {
    v.map_values(|p: (Vec<u8>, Vec<u8>)| (p.0@, p.1@))
}

/// The views of a sequence of records.
pub open spec fn records_view(v: Seq<Vec<(Vec<u8>, Vec<u8>)>>) -> Seq<Seq<(Seq<u8>, Seq<u8>)>> {
    v.map_values(|r: Vec<(Vec<u8>, Vec<u8>)>| pairs_view(r@))
}

/// Scans a byte input line by line and yields records of `(key, raw value)`
/// pairs.  A record ends at a blank line or at the end of the input; the raw
/// values still carry their folding and are interpreted afterwards by
/// [`unfold_value`] or [`split_list`].
pub struct Deserializer {
    lines: Vec<Vec<u8>>,
    li: usize,
    line_no: usize,
    pending: bool,
    eof: bool,
    empty: bool,
}

impl View for Deserializer {
    type V = ScanState;

    closed spec fn view(&self) -> ScanState {
        ScanState {
            rest: seq_views(self.lines@).skip(self.li as int),
            line_no: self.line_no as int,
            pending: self.pending,
            eof: self.eof,
            empty: self.empty,
        }
    }
}

impl Deserializer {
    /// The scanner's bookkeeping stays consistent: the cursor is in range, a
    /// pending line exists, and the line counter cannot outrun the cursor.
    pub closed spec fn wf(&self) -> bool {
        &&& self.li <= self.lines@.len()
        &&& (self.pending ==> self.li < self.lines@.len())
        &&& self.line_no as int <= self.li as int + if self.pending { 1int } else { 0int }
    }

    /// Creates a scanner over the given input bytes.
    pub fn new(input: Vec<u8>) -> (d: Deserializer)
        ensures
            d.wf(),
            d@ == init_state(input@),
    {
        let mut lines: Vec<Vec<u8>> = Vec::new();
        let mut cur: Vec<u8> = Vec::new();
        let mut i: usize = 0;
        proof {
            assert(input@.take(0) =~= Seq::<u8>::empty());
            assert(lines_of(input@.take(0)) =~~= Seq::<Seq<u8>>::empty());
            assert(seq_views(lines@) =~~= Seq::<Seq<u8>>::empty());
        }
        while i < input.len()
            invariant
                i <= input@.len(),
                forall|j: int| 0 <= j < cur@.len() ==> cur@[j] != 10,
                forall|k: int|
                    0 <= k < lines@.len() ==> #[trigger] lines@[k]@.len() > 0
                        && lines@[k]@.last() == 10,
                cur@.len() == 0 ==> lines_of(input@.take(i as int)) =~~= seq_views(lines@),
                cur@.len() > 0 ==> lines_of(input@.take(i as int)) =~~= seq_views(lines@)
                    + seq![cur@],
            decreases input@.len() - i,
        {
            let c = input[i];
            let ghost prev = input@.take(i as int);
            proof {
                assert(input@.take(i as int + 1) =~= prev + seq![c]);
                assert((prev + seq![c]).drop_last() =~= prev);
            }
            cur.push(c);
            if c == 10 {
                lines.push(cur);
                cur = Vec::new();
            }
            i = i + 1;
            proof {
                if cur@.len() == 0 {
                    assert(lines_of(input@.take(i as int)) =~~= seq_views(lines@));
                } else {
                    assert(lines_of(input@.take(i as int)) =~~= seq_views(lines@) + seq![cur@]);
                }
            }
        }
        proof {
            assert(input@.take(input@.len() as int) =~= input@);
        }
        if cur.len() > 0 {
            lines.push(cur);
        }
        let d = Deserializer { lines, li: 0, line_no: 0, pending: false, eof: false, empty: true };
        proof {
            assert(seq_views(d.lines@).skip(0) =~= seq_views(d.lines@));
            assert(d@.rest =~~= lines_of(input@));
        }
        d
    }

    /// Reads up to the next key: `Ok(Some(key))` when the pending line holds a
    /// colon, `Ok(None)` at a blank line or the end of input, and the
    /// missing-colon error otherwise, exactly as `key_step` says.
    pub fn get_key(&mut self) -> (r: Result<Option<Vec<u8>>, Error>)
        requires
            old(self).wf(),
        ensures
            final(self).wf(),
            ({
                let (k, st1) = key_step(old(self)@);
                final(self)@ == st1 && match k {
                    KeyStep::Eof => r matches Ok(o) && o is None,
                    KeyStep::Blank => r matches Ok(o) && o is None,
                    KeyStep::Found(key) => r matches Ok(o) && o matches Some(kv) && kv@ == key,
                    KeyStep::Missing(n) => r matches Err(e) && e.kind matches
                        ErrorKind::MissingColon(m) && m == n,
                }
            }),
    {
        if self.li == self.lines.len() {
            self.eof = true;
            proof {
                assert(self@.rest =~~= old(self)@.rest);
            }
            return Ok(None);
        }
        if !self.pending {
            self.line_no = self.line_no + 1;
            self.pending = true;
        }
        proof {
            assert(self@.rest =~~= old(self)@.rest);
            assert(self@.rest[0] == self.lines@[self.li as int]@);
        }
        let blank = self.lines[self.li].len() == 1 && self.lines[self.li][0] == 10;
        proof {
            if blank {
                assert(self.lines@[self.li as int]@ =~= seq![10u8]);
            } else {
                assert(self.lines@[self.li as int]@ != seq![10u8]);
            }
        }
        if blank {
            let ghost before = self@.rest;
            self.li = self.li + 1;
            self.pending = false;
            self.empty = true;
            proof {
                assert(self@.rest =~~= before.skip(1));
            }
            return Ok(None);
        }
        match find_byte_in(&self.lines[self.li], 58) {
            None => Err(Error { kind: ErrorKind::MissingColon(self.line_no) }),
            Some(c) => {
                self.empty = false;
                proof {
                    lemma_find_byte(self.lines@[self.li as int]@, 58);
                    assert(self.lines@[self.li as int]@.subrange(0, c as int)
                        =~= self.lines@[self.li as int]@.take(c as int));
                }
                let key = copy_range(&self.lines[self.li], 0, c);
                Ok(Some(key))
            }
        }
    }

    /// Gathers the raw value of the pending key line: every following
    /// continuation line is consumed, and the text after the colon is trimmed
    /// once as a whole, exactly as `value_raw` and `value_step` say.
    pub fn get_value(&mut self) -> (r: Vec<u8>)
        requires
            old(self).wf(),
            old(self)@.pending,
            find_byte(old(self)@.rest[0], 58) is Some,
        ensures
            final(self).wf(),
            final(self)@ == value_step(old(self)@),
            r@ == value_raw(old(self)@),
    {
        let ghost st = old(self)@;
        proof {
            assert(st.rest[0] == self.lines@[self.li as int]@);
        }
        let c = match find_byte_in(&self.lines[self.li], 58) {
            Some(c) => c,
            None => {
                proof {
                    assert(false);
                }
                0
            }
        };
        proof {
            lemma_find_byte(self.lines@[self.li as int]@, 58);
        }
        let line_len = self.lines[self.li].len();
        let mut buf = copy_range(&self.lines[self.li], c + 1, line_len);
        proof {
            assert(buf@ =~= st.rest[0].skip(c as int + 1));
            assert(st.rest.subrange(1, 1) =~~= Seq::<Seq<u8>>::empty());
            assert(buf@ =~= st.rest[0].skip(c as int + 1) + st.rest.subrange(1, 1).flatten());
        }
        let total = self.lines.len();
        assert(self.li < total);
        let mut j: usize = self.li + 1;
        while j < self.lines.len() && self.lines[j].len() > 0 && is_cont(self.lines[j][0])
            invariant
                self == old(self),
                old(self).wf(),
                self.li < j <= self.lines@.len(),
                st == old(self)@,
                st.rest[0] == self.lines@[self.li as int]@,
                forall|k: int|
                    1 <= k < j - self.li ==> (#[trigger] st.rest[k]).len() > 0
                        && is_cont_byte(st.rest[k][0]),
                buf@ == st.rest[0].skip(c as int + 1)
                    + st.rest.subrange(1, j - self.li).flatten(),
            decreases self.lines@.len() - j,
        {
            let ghost pre = st.rest.subrange(1, j - self.li);
            proof {
                assert(st.rest[j - self.li] == self.lines@[j as int]@);
            }
            let line = &self.lines[j];
            append_bytes(&mut buf, line);
            proof {
                let post = st.rest.subrange(1, j + 1 - self.li);
                assert(post =~~= pre.push(st.rest[j - self.li]));
                pre.lemma_flatten_push(st.rest[j - self.li]);
                assert(buf@ == st.rest[0].skip(c as int + 1) + post.flatten());
                assert(st.rest[j - self.li].len() > 0
                    && is_cont_byte(st.rest[j - self.li][0]));
            }
            j = j + 1;
        }
        proof {
            let rest1 = st.rest.skip(1);
            assert(st.rest.len() == self.lines@.len() - self.li);
            assert(rest1.len() == st.rest.len() - 1);
            assert forall|k: int| 0 <= k < j - self.li - 1 implies #[trigger] rest1[k].len() > 0
                && is_cont_byte(rest1[k][0]) by {
                assert(st.rest[k + 1].len() > 0 && is_cont_byte(st.rest[k + 1][0]));
                assert(rest1[k] == st.rest[k + 1]);
            }
            if j < self.lines@.len() {
                assert(rest1[j - self.li - 1] == st.rest[j - self.li]);
                assert(st.rest[j - self.li] == self.lines@[j as int]@);
            }
            lemma_cont_count_exact(rest1, j - self.li - 1);
        }
        let v = trim_bytes(&buf);
        let ghost before = self@.rest;
        self.li = j;
        self.pending = j < self.lines.len();
        proof {
            let n = cont_count(st.rest.skip(1));
            assert(self@.rest =~~= st.rest.skip(1 + n as int));
        }
        v
    }

    /// Scans one record: `(key, raw value)` pairs until a blank line or the
    /// end of input, exactly as `record_step` says.
    pub fn decode_record(&mut self) -> (r: Result<Vec<(Vec<u8>, Vec<u8>)>, Error>)
        requires
            old(self).wf(),
        ensures
            final(self).wf(),
            ({
                let (rr, st1) = record_step(old(self)@);
                final(self)@ == st1 && match rr {
                    Ok(fields) => r matches Ok(v) && pairs_view(v@) == fields,
                    Err(n) => r matches Err(e) && e.kind matches ErrorKind::MissingColon(m)
                        && m == n,
                }
            }),
    {
        let ghost st0 = old(self)@;
        let mut fields: Vec<(Vec<u8>, Vec<u8>)> = Vec::new();
        proof {
            assert(pairs_view(fields@) =~= Seq::<(Seq<u8>, Seq<u8>)>::empty());
        }
        loop
            invariant
                self.wf(),
                st0 == old(self)@,
                ({
                    let (rr, stf) = record_step(self@);
                    let (rr0, stf0) = record_step(st0);
                    stf0 == stf && match (rr0, rr) {
                        (Ok(f0), Ok(f)) => f0 == pairs_view(fields@) + f,
                        (Err(n0), Err(n)) => n0 == n,
                        _ => false,
                    }
                }),
            decreases self@.rest.len(),
        {
            let ghost st_pre = self@;
            match self.get_key() {
                Err(e) => {
                    return Err(e);
                }
                Ok(None) => {
                    proof {
                        let (kk, st1k) = key_step(st_pre);
                        assert(self@ == st1k);
                        let (rr, stf) = record_step(st_pre);
                        assert(stf == st1k);
                        assert(rr == Ok::<Seq<(Seq<u8>, Seq<u8>)>, int>(seq![]));
                        let (rr0, stf0) = record_step(st0);
                        assert(stf0 == stf);
                        match rr0 {
                            Ok(f0) => {
                                assert(f0 == pairs_view(fields@) + seq![]);
                                assert(pairs_view(fields@) + Seq::<(Seq<u8>, Seq<u8>)>::empty()
                                    =~= pairs_view(fields@));
                            }
                            Err(_) => {
                                assert(false);
                            }
                        }
                    }
                    return Ok(fields);
                }
                Ok(Some(k)) => {
                    let ghost (ks, st1) = key_step(st_pre);
                    let v = self.get_value();
                    let ghost old_fields = fields@;
                    fields.push((k, v));
                    proof {
                        lemma_cont_count_le(st1.rest.skip(1));
                        assert(self@.rest.len() < st_pre.rest.len());
                        assert(pairs_view(fields@) =~= pairs_view(old_fields).push((k@, v@)));
                        let (rr, stf) = record_step(self@);
                        let (rrp, stfp) = record_step(st_pre);
                        match rr {
                            Ok(f) => {
                                assert(rrp == Ok::<_, int>(seq![(k@, v@)] + f));
                                assert(pairs_view(old_fields) + (seq![(k@, v@)] + f)
                                    =~= pairs_view(fields@) + f);
                            }
                            Err(_) => {}
                        }
                    }
                }
            }
        }
    }

    /// Scans a homogeneous sequence of records to the end of the input,
    /// applying the termination rule of `records_step`: a trailing blank line
    /// or clean end of input ends the sequence without an extra empty record,
    /// and an error raised right after a clean boundary ends it silently.
    pub fn decode_records(&mut self) -> (r: Result<Vec<Vec<(Vec<u8>, Vec<u8>)>>, Error>)
        requires
            old(self).wf(),
        ensures
            final(self).wf(),
            ({
                let (rr, st1) = records_step(old(self)@);
                match rr {
                    Ok(recs) => r matches Ok(v) && records_view(v@) == recs,
                    Err(n) => r matches Err(e) && e.kind matches ErrorKind::MissingColon(m)
                        && m == n,
                }
            }),
    {
        let ghost st0 = old(self)@;
        let mut recs: Vec<Vec<(Vec<u8>, Vec<u8>)>> = Vec::new();
        proof {
            assert(records_view(recs@) =~= Seq::<Seq<(Seq<u8>, Seq<u8>)>>::empty());
        }
        loop
            invariant
                self.wf(),
                st0 == old(self)@,
                ({
                    let (rr, stf) = records_step(self@);
                    let (rr0, stf0) = records_step(st0);
                    match (rr0, rr) {
                        (Ok(r0), Ok(rc)) => r0 == records_view(recs@) + rc,
                        (Err(n0), Err(n)) => n0 == n,
                        _ => false,
                    }
                }),
            decreases self@.rest.len(),
        {
            let ghost st_pre = self@;
            if self.at_eof() {
                proof {
                    let (rr, stf) = records_step(st_pre);
                    assert(rr == Ok::<Seq<Seq<(Seq<u8>, Seq<u8>)>>, int>(seq![]));
                    let (rr0, stf0) = records_step(st0);
                    match rr0 {
                        Ok(r0) => {
                            assert(r0 == records_view(recs@) + seq![]);
                            assert(records_view(recs@) + Seq::<Seq<(Seq<u8>, Seq<u8>)>>::empty()
                                =~= records_view(recs@));
                        }
                        Err(_) => {
                            assert(false);
                        }
                    }
                }
                return Ok(recs);
            }
            proof {
                lemma_record_step_consumes(st_pre);
            }
            match self.decode_record() {
                Ok(fields) => {
                    if fields.len() == 0 {
                        proof {
                            let (rrp, stfp) = record_step(st_pre);
                            assert(rrp matches Ok(f) && f == pairs_view(fields@));
                            assert(pairs_view(fields@) =~= Seq::<(Seq<u8>, Seq<u8>)>::empty());
                            let (rr, stf) = records_step(st_pre);
                            assert(rr == Ok::<Seq<Seq<(Seq<u8>, Seq<u8>)>>, int>(seq![]));
                            let (rr0, stf0) = records_step(st0);
                            match rr0 {
                                Ok(r0) => {
                                    assert(r0 == records_view(recs@) + seq![]);
                                    assert(records_view(recs@)
                                        + Seq::<Seq<(Seq<u8>, Seq<u8>)>>::empty()
                                        =~= records_view(recs@));
                                }
                                Err(_) => {
                                    assert(false);
                                }
                            }
                        }
                        return Ok(recs);
                    }
                    let ghost old_recs = recs@;
                    recs.push(fields);
                    proof {
                        assert(records_view(recs@)
                            =~= records_view(old_recs).push(pairs_view(fields@)));
                        let (rr, stf) = records_step(self@);
                        let (rrp, stfp) = records_step(st_pre);
                        match rr {
                            Ok(rc) => {
                                assert(rrp == Ok::<_, int>(seq![pairs_view(fields@)] + rc));
                                assert(records_view(old_recs) + (seq![pairs_view(fields@)] + rc)
                                    =~= records_view(recs@) + rc);
                            }
                            Err(_) => {}
                        }
                    }
                }
                Err(e) => {
                    if self.at_clean_boundary() {
                        proof {
                            let (rr, stf) = records_step(st_pre);
                            assert(rr == Ok::<Seq<Seq<(Seq<u8>, Seq<u8>)>>, int>(seq![]));
                            let (rr0, stf0) = records_step(st0);
                            match rr0 {
                                Ok(r0) => {
                                    assert(r0 == records_view(recs@) + seq![]);
                                    assert(records_view(recs@)
                                        + Seq::<Seq<(Seq<u8>, Seq<u8>)>>::empty()
                                        =~= records_view(recs@));
                                }
                                Err(_) => {
                                    assert(false);
                                }
                            }
                        }
                        return Ok(recs);
                    }
                    return Err(e);
                }
            }
        }
    }

    /// Whether the scanner has reached the end of its input.
    pub fn at_eof(&self) -> (r: bool)
        ensures
            r == self@.eof,
    {
        self.eof
    }

    /// Whether the last boundary the scanner crossed was clean: a blank line,
    /// or nothing read yet.
    pub fn at_clean_boundary(&self) -> (r: bool)
        ensures
            r == self@.empty,
    {
        self.empty
    }
}

/// Whether `s` holds a line feed immediately followed by a space: the wire
/// mark of a folded (multi-physical-line) value.
pub open spec fn has_nl_space(s: Seq<u8>) -> bool {
    exists|i: int| 0 <= i && i + 1 < s.len() && (#[trigger] s[i]) == 10 && s[i + 1] == 32
}

/// How one later segment of a folded value unfolds: the paragraph marker
/// (one space and a dot) becomes an empty line, anything else loses its
/// continuation indentation.
pub open spec fn unfold_piece(p: Seq<u8>) -> Seq<u8> {
    if p == seq![32u8, 46u8] {
        seq![]
    } else {
        strip_cont(p)
    }
}

/// The unfolded segments past the first, each prefixed by its line feed.
pub open spec fn unfold_tail(pieces: Seq<Seq<u8>>, i: int) -> Seq<u8>
    decreases pieces.len() - i,
{
    if i >= pieces.len() {
        seq![]
    } else {
        seq![10u8] + unfold_piece(pieces[i]) + unfold_tail(pieces, i + 1)
    }
}

/// A raw value turned into its logical multi-line string: a value from a
/// single physical line passes through unchanged; a folded one keeps its
/// first segment verbatim, and every later segment unfolds by
/// [`unfold_piece`].
pub open spec fn unfold_spec(raw: Seq<u8>) -> Seq<u8> {
    if !has_nl_space(raw) {
        raw
    } else {
        let pieces = split_on(raw, 10);
        pieces[0] + unfold_tail(pieces, 1)
    }
}

/// Whether `raw` carries the wire mark of a folded value.
fn is_folded(raw: &Vec<u8>) -> (r: bool)
    ensures
        r == has_nl_space(raw@),
{
    let n = raw.len();
    if n == 0 {
        return false;
    }
    let mut i: usize = 0;
    while i < n - 1
        invariant
            1 <= n == raw@.len(),
            i < n,
            forall|j: int| 0 <= j && j + 1 < i + 1 ==> !((#[trigger] raw@[j]) == 10 && raw@[j
                + 1] == 32),
        decreases raw@.len() - i,
    {
        if raw[i] == 10 && raw[i + 1] == 32 {
            return true;
        }
        i = i + 1;
    }
    false
}

/// Turns a raw field value into its logical multi-line string, as
/// `unfold_spec` says.
pub fn unfold_value(raw: &Vec<u8>) -> (r: Vec<u8>)
    ensures
        r@ == unfold_spec(raw@),
{
    if !is_folded(raw) {
        return copy_range(raw, 0, raw.len());
    }
    let pieces = split_bytes(raw, 10);
    proof {
        lemma_split_on_len(raw@, 10);
    }
    let mut out = copy_range(&pieces[0], 0, pieces[0].len());
    proof {
        assert(out@ =~= split_on(raw@, 10)[0]);
    }
    let mut i: usize = 1;
    while i < pieces.len()
        invariant
            1 <= i <= pieces@.len(),
            seq_views(pieces@) == split_on(raw@, 10),
            out@ + unfold_tail(seq_views(pieces@), i as int) == unfold_spec(raw@),
        decreases pieces@.len() - i,
    {
        out.push(10);
        let ghost pv = seq_views(pieces@)[i as int];
        proof {
            assert(pieces@[i as int]@ == pv);
        }
        let is_marker = pieces[i].len() == 2 && pieces[i][0] == 32 && pieces[i][1] == 46;
        proof {
            if is_marker {
                assert(pv =~= seq![32u8, 46u8]);
            } else {
                assert(pv != seq![32u8, 46u8]);
            }
        }
        if !is_marker {
            let piece = &pieces[i];
            let mut k: usize = 0;
            while k < piece.len() && is_cont(piece[k])
                invariant
                    k <= piece@.len(),
                    piece@ == pv,
                    forall|j: int| 0 <= j < k ==> is_cont_byte(pv[j]),
                decreases piece@.len() - k,
            {
                k = k + 1;
            }
            proof {
                lemma_strip_cont_skip(pv, k as int);
            }
            let stripped = copy_range(piece, k, piece.len());
            proof {
                assert(stripped@ =~= pv.skip(k as int));
            }
            append_bytes(&mut out, &stripped);
        }
        i = i + 1;
        proof {
            assert(out@ + unfold_tail(seq_views(pieces@), i as int) =~= unfold_spec(raw@));
        }
    }
    proof {
        assert(out@ + unfold_tail(seq_views(pieces@), i as int) =~= out@);
    }
    out
}

/// A logical value split at every comma, each item trimmed.  Commas are not
/// escapable in this format, so an item can never contain one.
pub open spec fn split_list_spec(raw: Seq<u8>) -> Seq<Seq<u8>> {
    split_on(raw, 44).map_values(|p: Seq<u8>| trim(p))
}

/// Splits a raw field value into its comma-separated items, as
/// `split_list_spec` says.
pub fn split_list(raw: &Vec<u8>) -> (r: Vec<Vec<u8>>)
    ensures
        seq_views(r@) == split_list_spec(raw@),
{
    let pieces = split_bytes(raw, 44);
    let mut r: Vec<Vec<u8>> = Vec::new();
    let mut i: usize = 0;
    proof {
        assert(seq_views(r@) =~~= split_list_spec(raw@).take(0));
    }
    while i < pieces.len()
        invariant
            i <= pieces@.len(),
            seq_views(pieces@) == split_on(raw@, 44),
            seq_views(r@) == split_list_spec(raw@).take(i as int),
        decreases pieces@.len() - i,
    {
        let item = trim_bytes(&pieces[i]);
        proof {
            assert(pieces@[i as int]@ == split_on(raw@, 44)[i as int]);
            assert(item@ == split_list_spec(raw@)[i as int]);
        }
        let ghost old_r = r@;
        r.push(item);
        proof {
            let items = split_list_spec(raw@);
            assert(seq_views(pieces@).len() == pieces@.len());
            assert(items.len() == pieces@.len());
            assert(seq_views(old_r).len() == old_r.len());
            assert(old_r.len() == i);
            assert forall|k: int| 0 <= k < i + 1 implies seq_views(r@)[k] == items.take(
                i as int + 1,
            )[k] by {
                if k < i {
                    assert(r@[k] == old_r[k]);
                    assert(seq_views(old_r)[k] == items.take(i as int)[k]);
                } else {
                    assert(r@[k] == item);
                }
            }
            assert(seq_views(r@) =~= items.take(i as int + 1));
        }
        i = i + 1;
    }
    proof {
        assert(split_list_spec(raw@).take(i as int) =~~= split_list_spec(raw@));
    }
    r
}

/// Decodes every record of `input`, applying the sequence termination rule.
pub fn from_bytes(input: Vec<u8>) -> (r: Result<Vec<Vec<(Vec<u8>, Vec<u8>)>>, Error>)
    ensures
        ({
            let (rr, st1) = records_step(init_state(input@));
            match rr {
                Ok(recs) => r matches Ok(v) && records_view(v@) == recs,
                Err(n) => r matches Err(e) && e.kind matches ErrorKind::MissingColon(m) && m == n,
            }
        }),
{
    let mut d = Deserializer::new(input);
    d.decode_records()
}

} // verus!

