//! Encoding into the line-oriented format: key validation, the stateful
//! folding writer that renders a logical multi-line value as a key line plus
//! indented continuation lines, the column-aligned list writer, and the
//! record and record-sequence serializers built on them.

use vstd::prelude::*;
use crate::text::{seq_views, split_on, split_bytes, append_bytes, copy_range, lemma_split_on_len};
use crate::wrap::{wrap_line, write_wraped, grapheme_len_of, grapheme_count};

verus! {

/// The reasons an encode fails.
#[derive(Debug)]
pub enum ErrorKind {
    /// The data model asked for a shape the format cannot represent; the
    /// payload names it.
    Unsupported(String),
    /// An error raised by the caller's data-model binding.
    Custom(String),
    /// A key held a colon or a line feed; the payload carries the key, the
    /// offending byte and its position.
    InvalidKeyChar { key: Vec<u8>, c: u8, pos: usize },
    /// An empty key is not allowed.
    EmptyKey,
}

/// Error that can happen during encoding.
#[derive(Debug)]
pub struct Error {
    /// What went wrong.
    pub kind: ErrorKind,
}

/// Where the folding writer stands: still on the key's own line, past a line
/// break, or just after writing a line feed whose next line is not yet known.
#[derive(Clone, Copy, Debug)]
pub enum FoldState {
    /// Output so far stays on the `Key: ` line, which is never wrapped.
    FirstLine,
    /// Mid-line after at least one line break.
    Neutral,
    /// The output ends with a line feed; an empty piece next means a
    /// paragraph marker.
    EndedWithNewline,
}

/// How one segment past the first of a chunk is rendered: an empty segment
/// that is not the chunk's last becomes the paragraph marker dot, a final
/// empty segment stays open for the next chunk, and anything else is written
/// as is or wrapped.
pub open spec fn piece_mapped(pieces: Seq<Seq<u8>>, i: int, wrap: bool) -> Seq<u8> {
    if pieces[i].len() == 0 {
        if i + 1 < pieces.len() {
            seq![46u8]
        } else {
            seq![]
        }
    } else if wrap {
        wrap_line(pieces[i])
    } else {
        pieces[i]
    }
}

/// The rendering of a chunk's segments from `i` on, each opened by a line
/// feed and the one-space continuation indent.
pub open spec fn chunk_tail_out(pieces: Seq<Seq<u8>>, i: int, wrap: bool) -> Seq<u8>
    decreases pieces.len() - i,
{
    if i >= pieces.len() {
        seq![]
    } else {
        seq![10u8, 32u8] + piece_mapped(pieces, i, wrap) + chunk_tail_out(pieces, i + 1, wrap)
    }
}

/// How a chunk's first segment is rendered, by the writer's state: verbatim on
/// the first line, a paragraph dot when empty right after a line feed, and
/// otherwise written or wrapped.
pub open spec fn chunk_first_out(st: FoldState, piece: Seq<u8>, wrap: bool) -> Seq<u8> {
    match st {
        FoldState::FirstLine => piece,
        FoldState::EndedWithNewline => if piece.len() == 0 {
            seq![46u8]
        } else if wrap {
            wrap_line(piece)
        } else {
            piece
        },
        FoldState::Neutral => if wrap {
            wrap_line(piece)
        } else {
            piece
        },
    }
}

/// Everything one chunk of value text adds to the output.
pub open spec fn chunk_out(st: FoldState, s: Seq<u8>, wrap: bool) -> Seq<u8> {
    if s.len() == 0 {
        seq![]
    } else {
        let pieces = split_on(s, 10);
        chunk_first_out(st, pieces[0], wrap) + chunk_tail_out(pieces, 1, wrap)
    }
}

/// The writer's state after a chunk: unchanged on an empty chunk, still on
/// the first line only if it never left it, and otherwise decided by whether
/// the chunk ended in a line feed.
pub open spec fn chunk_next(st: FoldState, s: Seq<u8>) -> FoldState {
    if s.len() == 0 {
        st
    } else if st is FirstLine && split_on(s, 10).len() == 1 {
        FoldState::FirstLine
    } else if s.last() == 10 {
        FoldState::EndedWithNewline
    } else {
        FoldState::Neutral
    }
}

/// What finishing the field adds: the single trailing line feed, unless the
/// output already ends with one.
pub open spec fn finish_out(st: FoldState) -> Seq<u8> {
    if st is EndedWithNewline {
        seq![]
    } else {
        seq![10u8]
    }
}

/// A whole logical value folded in one piece and finished.
pub open spec fn fold_value(v: Seq<u8>, wrap: bool) -> Seq<u8> {
    chunk_out(FoldState::FirstLine, v, wrap) + finish_out(chunk_next(FoldState::FirstLine, v))
}

/// The folding engine: fed a logical value in chunks, it writes the wire form
/// of the value after `Key: `, indenting continuation lines by one space and
/// rendering intentionally blank lines as the paragraph marker.
pub struct FieldWriter {
    /// Whether lines past the first are wrapped at 80 columns.
    pub wrap_long_lines: bool,
    /// Where the writer stands in the value.
    pub state: FoldState,
}

impl FieldWriter {
    /// A writer at the start of a field's value.
    pub fn new(wrap_long_lines: bool) -> (w: FieldWriter)
        ensures
            w.wrap_long_lines == wrap_long_lines,
            w.state is FirstLine,
    {
        FieldWriter { wrap_long_lines, state: FoldState::FirstLine }
    }

    /// Feeds one chunk of the value, appending exactly `chunk_out` to `out`
    /// and moving to `chunk_next`.
    pub fn write_str(&mut self, out: &mut Vec<u8>, s: &Vec<u8>)
        ensures
            final(out)@ == old(out)@ + chunk_out(
                old(self).state,
                s@,
                old(self).wrap_long_lines,
            ),
            final(self).state == chunk_next(old(self).state, s@),
            final(self).wrap_long_lines == old(self).wrap_long_lines,
    {
        let wrap = self.wrap_long_lines;
        if s.len() == 0 {
            proof {
                assert(out@ + chunk_out(self.state, s@, wrap) =~= out@);
            }
            return;
        }
        let pieces = split_bytes(s, 10);
        let ghost pv = split_on(s@, 10);
        proof {
            lemma_split_on_len(s@, 10);
            assert(pieces@[0]@ == pv[0]);
        }
        let first = &pieces[0];
        let first_empty = first.len() == 0;
        match self.state {
            FoldState::FirstLine => {
                append_bytes(out, first);
            }
            FoldState::EndedWithNewline => {
                if first_empty {
                    out.push(46);
                } else if wrap {
                    write_wraped(out, first);
                } else {
                    append_bytes(out, first);
                }
            }
            FoldState::Neutral => {
                if wrap {
                    write_wraped(out, first);
                } else {
                    append_bytes(out, first);
                }
            }
        }
        proof {
            assert(out@ =~= old(out)@ + chunk_first_out(old(self).state, pv[0], wrap));
        }
        let ghost head = out@;
        let mut i: usize = 1;
        proof {
            assert(head + chunk_tail_out(pv, 1, wrap)
                =~= old(out)@ + chunk_out(old(self).state, s@, wrap));
        }
        while i < pieces.len()
            invariant
                1 <= i <= pieces@.len(),
                seq_views(pieces@) == pv,
                wrap == old(self).wrap_long_lines,
                out@ + chunk_tail_out(pv, i as int, wrap)
                    == old(out)@ + chunk_out(old(self).state, s@, wrap),
            decreases pieces@.len() - i,
        {
            let ghost out_pre = out@;
            out.push(10);
            out.push(32);
            proof {
                assert(pieces@[i as int]@ == pv[i as int]);
            }
            let piece = &pieces[i];
            if piece.len() == 0 {
                if i + 1 < pieces.len() {
                    out.push(46);
                }
            } else if wrap {
                write_wraped(out, piece);
            } else {
                append_bytes(out, piece);
            }
            proof {
                assert(out@ + chunk_tail_out(pv, i as int + 1, wrap)
                    =~= out_pre + chunk_tail_out(pv, i as int, wrap));
            }
            i = i + 1;
        }
        proof {
            assert(chunk_tail_out(pv, i as int, wrap) =~= Seq::<u8>::empty());
            assert(out@ + chunk_tail_out(pv, i as int, wrap) =~= out@);
        }
        let contained_newline = pieces.len() > 1;
        let ends_nl = s[s.len() - 1] == 10;
        proof {
            assert(seq_views(pieces@).len() == pieces@.len());
            assert(s@.last() == s@[s@.len() - 1]);
        }
        let keep_first = match self.state {
            FoldState::FirstLine => !contained_newline,
            FoldState::Neutral => false,
            FoldState::EndedWithNewline => false,
        };
        if !keep_first {
            if ends_nl {
                self.state = FoldState::EndedWithNewline;
            } else {
                self.state = FoldState::Neutral;
            }
        }
    }

    /// Ends the field: writes the one trailing line feed unless the output
    /// already ends with one.  The state is left as it is, so finishing twice
    /// writes twice unless the value ended with a line feed.
    pub fn finish(&mut self, out: &mut Vec<u8>)
        ensures
            final(out)@ == old(out)@ + finish_out(old(self).state),
            final(self).state == old(self).state,
            final(self).wrap_long_lines == old(self).wrap_long_lines,
    {
        match self.state {
            FoldState::EndedWithNewline => {
                proof {
                    assert(out@ + finish_out(self.state) =~= out@);
                }
            }
            _ => {
                out.push(10);
            }
        }
    }
}

/// A key is valid for encoding when it is nonempty and free of colons and
/// line feeds.
pub open spec fn key_ok(key: Seq<u8>) -> bool {
    key.len() > 0 && !key.contains(58u8) && !key.contains(10u8)
}

/// The first position in `key` holding a colon or a line feed, or `key.len()`
/// when there is none.
pub open spec fn bad_key_at(key: Seq<u8>) -> int
    decreases key.len(),
{
    if key.len() == 0 {
        0
    } else if key[0] == 58 || key[0] == 10 {
        0
    } else {
        1 + bad_key_at(key.drop_first())
    }
}

pub proof fn lemma_bad_key_at(key: Seq<u8>)
    ensures
        0 <= bad_key_at(key) <= key.len(),
        forall|j: int| 0 <= j < bad_key_at(key) ==> key[j] != 58 && key[j] != 10,
        bad_key_at(key) < key.len() ==> key[bad_key_at(key)] == 58 || key[bad_key_at(key)]
            == 10,
        (bad_key_at(key) == key.len()) == (!key.contains(58u8) && !key.contains(10u8)),
    decreases key.len(),
{
    if key.len() > 0 && key[0] != 58 && key[0] != 10 {
        let t = key.drop_first();
        lemma_bad_key_at(t);
        let b = bad_key_at(key);
        assert forall|j: int| 0 <= j < b implies key[j] != 58 && key[j] != 10 by {
            if j > 0 {
                assert(t[j - 1] == key[j]);
            }
        }
        if b < key.len() {
            assert(key[b] == t[b - 1]);
        }
        if b == key.len() {
            assert forall|j: int| 0 <= j < key.len() implies key[j] != 58 && key[j] != 10 by {
                if j > 0 {
                    assert(t[j - 1] == key[j]);
                }
            }
            assert(!key.contains(58u8) && !key.contains(10u8));
        } else {
            assert(key.contains(58u8) || key.contains(10u8));
        }
    } else if key.len() > 0 {
        assert(key.contains(key[0]));
    }
}

/// The error that rejecting `key` must carry: the empty-key error for an
/// empty key, and otherwise the first offending byte with its position.
pub open spec fn key_error_ok(key: Seq<u8>, e: Error) -> bool {
    if key.len() == 0 {
        e.kind is EmptyKey
    } else {
        e.kind matches ErrorKind::InvalidKeyChar { key: k, c, pos } && k@ == key && c == key[
            bad_key_at(key)
        ] && pos == bad_key_at(key)
    }
}

/// Rejects an empty key or one holding a colon or line feed, as
/// `key_error_ok` says; writes nothing.
pub fn check_key(key: &Vec<u8>) -> (r: Result<(), Error>)
    ensures
        key_ok(key@) ==> r is Ok,
        !key_ok(key@) ==> (r matches Err(e) && key_error_ok(key@, e)),
{
    proof {
        lemma_bad_key_at(key@);
    }
    if key.len() == 0 {
        return Err(Error { kind: ErrorKind::EmptyKey });
    }
    let mut i: usize = 0;
    while i < key.len()
        invariant
            i <= key@.len(),
            forall|j: int| 0 <= j < i ==> key@[j] != 58 && key@[j] != 10,
        decreases key@.len() - i,
    {
        if key[i] == 58 || key[i] == 10 {
            proof {
                lemma_bad_key_at(key@);
                assert(bad_key_at(key@) == i);
            }
            let bad = key[i];
            let held = copy_range(key, 0, key.len());
            proof {
                assert(held@ =~= key@);
            }
            return Err(
                Error { kind: ErrorKind::InvalidKeyChar { key: held, c: bad, pos: i } },
            );
        }
        i = i + 1;
    }
    proof {
        lemma_bad_key_at(key@);
        assert(!key@.contains(58u8) && !key@.contains(10u8)) by {
            assert(bad_key_at(key@) == key@.len());
        }
    }
    Ok(())
}

/// The two bytes written between a key and its value.
pub open spec fn key_sep() -> Seq<u8> {
    seq![58u8, 32u8]
}

/// Validates `key` and writes `key: ` to `out`; on a rejected key nothing is
/// written.
pub fn check_and_write_key(out: &mut Vec<u8>, key: &Vec<u8>) -> (r: Result<(), Error>)
    ensures
        key_ok(key@) ==> r is Ok && final(out)@ == old(out)@ + key@ + key_sep(),
        !key_ok(key@) ==> final(out)@ == old(out)@ && (r matches Err(e) && key_error_ok(key@, e)),
{
    check_key(key)?;
    append_bytes(out, key);
    out.push(58);
    out.push(32);
    proof {
        assert(out@ =~= old(out)@ + key@ + key_sep());
    }
    Ok(())
}

/// The shape of one field's value: absent fields and empty lists write
/// nothing, a scalar is folded, a list is written comma-separated and
/// column-aligned.
pub enum FieldValue {
    /// No value: the field is omitted.
    Absent,
    /// A logical multi-line string, folded by the `FieldWriter`.
    Scalar(Vec<u8>),
    /// A sequence of items, none of which may hold a comma or line feed
    /// representably.
    List(Vec<Vec<u8>>),
}

/// The mathematical shape of a `FieldValue`.
pub ghost enum ValueView {
    /// No value.
    Absent,
    /// A logical multi-line string.
    Scalar(Seq<u8>),
    /// A sequence of items.
    List(Seq<Seq<u8>>),
}

impl View for FieldValue {
    type V = ValueView;

    open spec fn view(&self) -> ValueView {
        match self {
            FieldValue::Absent => ValueView::Absent,
            FieldValue::Scalar(v) => ValueView::Scalar(v@),
            FieldValue::List(l) => ValueView::List(seq_views(l@)),
        }
    }
}

/// A run of `n` spaces.
pub open spec fn spaces(n: nat) -> Seq<u8> {
    Seq::new(n, |i: int| 32u8)
}

/// The continuation indent of a list field: the key's width in grapheme
/// clusters plus two, aligning items under the first one.
pub open spec fn list_indent(key: Seq<u8>) -> nat {
    grapheme_len_of(key) + 2
}

/// The list items from `i` on, each opened by a comma, a line feed and the
/// aligning indent.
pub open spec fn list_tail_out(items: Seq<Seq<u8>>, i: int, ind: nat) -> Seq<u8>
    decreases items.len() - i,
{
    if i >= items.len() {
        seq![]
    } else {
        seq![44u8, 10u8] + spaces(ind) + items[i] + list_tail_out(items, i + 1, ind)
    }
}

/// A list field on the wire: nothing at all when the list is empty, else the
/// key line with the first item and one aligned line per further item.
pub open spec fn encode_list(key: Seq<u8>, items: Seq<Seq<u8>>) -> Seq<u8> {
    if items.len() == 0 {
        seq![]
    } else {
        key + key_sep() + items[0] + list_tail_out(items, 1, list_indent(key)) + seq![10u8]
    }
}

/// A scalar field on the wire: the key line and the folded value, ending in
/// exactly one line feed.
pub open spec fn encode_scalar(key: Seq<u8>, v: Seq<u8>, wrap: bool) -> Seq<u8> {
    key + key_sep() + fold_value(v, wrap)
}

/// One field on the wire, by its shape.
pub open spec fn encode_field(key: Seq<u8>, v: ValueView, wrap: bool) -> Seq<u8> {
    match v {
        ValueView::Absent => seq![],
        ValueView::Scalar(s) => encode_scalar(key, s, wrap),
        ValueView::List(l) => encode_list(key, l),
    }
}

/// The views of a sequence of `(key, value)` fields.
pub open spec fn fields_view(v: Seq<(Vec<u8>, FieldValue)>) -> Seq<(Seq<u8>, ValueView)> {
    v.map_values(|p: (Vec<u8>, FieldValue)| (p.0@, p.1@))
}

/// A whole record on the wire: its fields in order.
pub open spec fn encode_fields(fields: Seq<(Seq<u8>, ValueView)>, wrap: bool) -> Seq<u8>
    decreases fields.len(),
{
    if fields.len() == 0 {
        seq![]
    } else {
        encode_field(fields[0].0, fields[0].1, wrap) + encode_fields(fields.drop_first(), wrap)
    }
}

/// Appending one field to a record appends its encoding.
pub proof fn lemma_encode_fields_snoc(fields: Seq<(Seq<u8>, ValueView)>, f: (Seq<u8>, ValueView), wrap: bool)
    ensures
        encode_fields(fields.push(f), wrap) == encode_fields(fields, wrap) + encode_field(
            f.0,
            f.1,
            wrap,
        ),
    decreases fields.len(),
{
    if fields.len() == 0 {
        assert(fields.push(f)[0] == f);
        assert(fields.push(f).drop_first() =~= Seq::<(Seq<u8>, ValueView)>::empty());
        assert(encode_fields(Seq::<(Seq<u8>, ValueView)>::empty(), wrap) == Seq::<u8>::empty());
        assert(encode_fields(fields.push(f), wrap) =~= encode_fields(fields, wrap)
            + encode_field(f.0, f.1, wrap));
    } else {
        assert(fields.push(f).drop_first() =~= fields.drop_first().push(f));
        assert(fields.push(f)[0] == fields[0]);
        lemma_encode_fields_snoc(fields.drop_first(), f, wrap);
        assert(encode_fields(fields.push(f), wrap) =~= encode_fields(fields, wrap)
            + encode_field(f.0, f.1, wrap));
    }
}

/// Writes one field to `out`: the key is validated first, and an absent value
/// or an empty list writes nothing, as `encode_field` says.
pub fn write_field(out: &mut Vec<u8>, wrap_long_lines: bool, key: &Vec<u8>, value: &FieldValue) -> (r:
    Result<(), Error>)
    ensures
        key_ok(key@) ==> r is Ok && final(out)@ == old(out)@ + encode_field(
            key@,
            value@,
            wrap_long_lines,
        ),
        !key_ok(key@) ==> final(out)@ == old(out)@ && (r matches Err(e) && key_error_ok(key@, e)),
{
    match value {
        FieldValue::Absent => {
            check_key(key)?;
            proof {
                assert(out@ + encode_field(key@, value@, wrap_long_lines) =~= out@);
            }
            Ok(())
        }
        FieldValue::Scalar(v) => {
            check_and_write_key(out, key)?;
            let mut w = FieldWriter::new(wrap_long_lines);
            w.write_str(out, v);
            w.finish(out);
            proof {
                assert(out@ =~= old(out)@ + encode_field(key@, value@, wrap_long_lines));
            }
            Ok(())
        }
        FieldValue::List(items) => {
            check_key(key)?;
            if items.len() == 0 {
                proof {
                    assert(seq_views(items@).len() == 0);
                    assert(out@ + encode_field(key@, value@, wrap_long_lines) =~= out@);
                }
                return Ok(());
            }
            let ghost iv = seq_views(items@);
            proof {
                assert(iv.len() == items@.len());
            }
            check_and_write_key(out, key)?;
            append_bytes(out, &items[0]);
            proof {
                assert(items@[0]@ == iv[0]);
            }
            let kw = grapheme_count(key);
            let ghost ind = list_indent(key@);
            let ghost head = out@;
            let mut i: usize = 1;
            proof {
                assert(head + list_tail_out(iv, 1, ind) + seq![10u8]
                    =~= old(out)@ + encode_list(key@, iv));
            }
            while i < items.len()
                invariant
                    1 <= i <= items@.len(),
                    seq_views(items@) == iv,
                    kw as nat == grapheme_len_of(key@),
                    ind == list_indent(key@),
                    out@ + list_tail_out(iv, i as int, ind) + seq![10u8]
                        == old(out)@ + encode_list(key@, iv),
                decreases items@.len() - i,
            {
                let ghost out_pre = out@;
                out.push(44);
                out.push(10);
                out.push(32);
                out.push(32);
                let mut sp: usize = 0;
                while sp < kw
                    invariant
                        sp <= kw,
                        out@ == out_pre + seq![44u8, 10u8, 32u8, 32u8] + spaces(sp as nat),
                    decreases kw - sp,
                {
                    out.push(32);
                    proof {
                        assert(spaces(sp as nat + 1) =~= spaces(sp as nat) + seq![32u8]);
                    }
                    sp = sp + 1;
                }
                proof {
                    assert(seq![44u8, 10u8] + spaces(ind)
                        =~= seq![44u8, 10u8, 32u8, 32u8] + spaces(kw as nat));
                }
                append_bytes(out, &items[i]);
                proof {
                    assert(items@[i as int]@ == iv[i as int]);
                    assert(out@ + list_tail_out(iv, i as int + 1, ind)
                        =~= out_pre + list_tail_out(iv, i as int, ind));
                }
                i = i + 1;
            }
            out.push(10);
            proof {
                assert(list_tail_out(iv, i as int, ind) =~= Seq::<u8>::empty());
                assert(out@ =~= old(out)@ + encode_list(key@, iv));
            }
            Ok(())
        }
    }
}

/// The position of the first field of `fields` whose key is invalid, or
/// `fields.len()` when every key is valid.
pub open spec fn first_bad_field(fields: Seq<(Seq<u8>, ValueView)>) -> int
    decreases fields.len(),
{
    if fields.len() == 0 {
        0
    } else if !key_ok(fields[0].0) {
        0
    } else {
        1 + first_bad_field(fields.drop_first())
    }
}

pub proof fn lemma_first_bad_field(fields: Seq<(Seq<u8>, ValueView)>)
    ensures
        0 <= first_bad_field(fields) <= fields.len(),
        forall|j: int| 0 <= j < first_bad_field(fields) ==> key_ok(#[trigger] fields[j].0),
        first_bad_field(fields) < fields.len() ==> !key_ok(fields[first_bad_field(fields)].0),
    decreases fields.len(),
{
    if fields.len() > 0 && key_ok(fields[0].0) {
        let t = fields.drop_first();
        lemma_first_bad_field(t);
        let b = first_bad_field(fields);
        assert forall|j: int| 0 <= j < b implies key_ok(#[trigger] fields[j].0) by {
            if j > 0 {
                assert(t[j - 1] == fields[j]);
            }
        }
        if b < fields.len() {
            assert(fields[b] == t[b - 1]);
        }
    }
}

/// Writes the fields of one record in order, stopping at the first invalid
/// key: the valid prefix is already on the wire when the error comes back.
fn write_record(out: &mut Vec<u8>, wrap_long_lines: bool, record: &Vec<(Vec<u8>, FieldValue)>) -> (r:
    Result<(), Error>)
    ensures
        ({
            let fv = fields_view(record@);
            let b = first_bad_field(fv);
            if b == fv.len() {
                r is Ok && final(out)@ == old(out)@ + encode_fields(fv, wrap_long_lines)
            } else {
                final(out)@ == old(out)@ + encode_fields(fv.take(b), wrap_long_lines) && (
                r matches Err(e) && key_error_ok(fv[b].0, e))
            }
        }),
{
    let ghost fv = fields_view(record@);
    proof {
        lemma_first_bad_field(fv);
        assert(fv.len() == record@.len());
        assert(fv.take(0) =~= Seq::<(Seq<u8>, ValueView)>::empty());
        assert(out@ + Seq::<u8>::empty() =~= out@);
    }
    let mut i: usize = 0;
    while i < record.len()
        invariant
            i <= record@.len(),
            fv == fields_view(record@),
            i <= first_bad_field(fv),
            out@ == old(out)@ + encode_fields(fv.take(i as int), wrap_long_lines),
        decreases record@.len() - i,
    {
        proof {
            lemma_first_bad_field(fv);
            assert(fv[i as int] == (record@[i as int].0@, record@[i as int].1@));
        }
        let field = &record[i];
        match write_field(out, wrap_long_lines, &field.0, &field.1) {
            Ok(_) => {}
            Err(e) => {
                proof {
                    assert(!key_ok(fv[i as int].0));
                    assert(first_bad_field(fv) == i);
                }
                return Err(e);
            }
        }
        proof {
            assert(key_ok(fv[i as int].0));
            assert(first_bad_field(fv) > i);
            lemma_encode_fields_snoc(fv.take(i as int), fv[i as int], wrap_long_lines);
            assert(fv.take(i as int + 1) =~= fv.take(i as int).push(fv[i as int]));
            assert(out@ == old(out)@ + encode_fields(fv.take(i as int + 1), wrap_long_lines));
        }
        i = i + 1;
    }
    proof {
        lemma_first_bad_field(fv);
        assert(fv.take(fv.len() as int) =~= fv);
    }
    Ok(())
}

/// Serializes values into the wire format.  A lone scalar has no place in the
/// format: only records (structs or maps) and sequences of records can be
/// serialized.
pub struct Serializer {
    /// The bytes written so far.
    pub output: Vec<u8>,
    /// Whether lines longer than 80 columns are wrapped on word boundaries.
    pub wrap_long_lines: bool,
}

impl Serializer {
    /// Constructs the serializer with an empty output and wrapping off.
    pub fn new() -> (s: Serializer)
        ensures
            s.output@ == Seq::<u8>::empty(),
            s.wrap_long_lines == false,
    {
        Serializer { output: Vec::new(), wrap_long_lines: false }
    }

    /// Causes lines longer than 80 characters to be wrapped on word
    /// boundaries.
    pub fn wrap_long_lines(self, wrap: bool) -> (s: Serializer)
        ensures
            s.output == self.output,
            s.wrap_long_lines == wrap,
    {
        Serializer { output: self.output, wrap_long_lines: wrap }
    }

    /// A bare string is not representable at the top level of the format.
    pub fn serialize_str(self, _v: &Vec<u8>) -> (r: Result<(), Error>)
        ensures
            r matches Err(e) && e.kind matches ErrorKind::Unsupported(t) && t@ == "str"@,
    {
        Err(Error { kind: ErrorKind::Unsupported("str".to_owned()) })
    }

    /// Starts serializing one record given as explicit fields.
    pub fn serialize_struct(self) -> (s: StructSerializer)
        ensures
            s.output == self.output,
            s.wrap_long_lines == self.wrap_long_lines,
    {
        StructSerializer { output: self.output, wrap_long_lines: self.wrap_long_lines }
    }

    /// Starts serializing one record given as alternating keys and values.
    pub fn serialize_map(self) -> (m: MapSerializer)
        ensures
            m.output == self.output,
            m.wrap_long_lines == self.wrap_long_lines,
            m.field_name is None,
    {
        MapSerializer {
            output: self.output,
            field_name: None,
            wrap_long_lines: self.wrap_long_lines,
        }
    }

    /// Starts serializing a sequence of records separated by blank lines.
    pub fn serialize_seq(self) -> (q: SeqSerializer)
        ensures
            q.output == self.output,
            q.wrap_long_lines == self.wrap_long_lines,
            q.is_empty == true,
    {
        SeqSerializer {
            output: self.output,
            wrap_long_lines: self.wrap_long_lines,
            is_empty: true,
        }
    }
}

/// Serializes one record field by field.
pub struct StructSerializer {
    /// The bytes written so far.
    pub output: Vec<u8>,
    /// Whether long lines are wrapped.
    pub wrap_long_lines: bool,
}

impl StructSerializer {
    /// Writes one field: the key is validated, and an absent value or empty
    /// list writes nothing, as `encode_field` says.
    pub fn serialize_field(&mut self, key: &Vec<u8>, value: &FieldValue) -> (r: Result<(), Error>)
        ensures
            final(self).wrap_long_lines == old(self).wrap_long_lines,
            key_ok(key@) ==> r is Ok && final(self).output@ == old(self).output@ + encode_field(
                key@,
                value@,
                old(self).wrap_long_lines,
            ),
            !key_ok(key@) ==> final(self).output@ == old(self).output@ && (r matches Err(e)
                && key_error_ok(key@, e)),
    {
        let wrap = self.wrap_long_lines;
        write_field(&mut self.output, wrap, key, value)
    }

    /// Ends the record and hands the output back.
    pub fn end(self) -> (out: Vec<u8>)
        ensures
            out == self.output,
    {
        self.output
    }
}

/// Serializes one record from alternating key and value calls.
pub struct MapSerializer {
    /// The bytes written so far.
    pub output: Vec<u8>,
    /// The key waiting for its value.
    pub field_name: Option<Vec<u8>>,
    /// Whether long lines are wrapped.
    pub wrap_long_lines: bool,
}

impl MapSerializer {
    /// Remembers the key of the next field; nothing is written yet.
    pub fn serialize_key(&mut self, key: Vec<u8>) -> (r: Result<(), Error>)
        ensures
            r is Ok,
            final(self).output == old(self).output,
            final(self).wrap_long_lines == old(self).wrap_long_lines,
            final(self).field_name == Some(key),
    {
        self.field_name = Some(key);
        Ok(())
    }

    /// Writes the field of the remembered key, which must have been given
    /// first, as `encode_field` says.
    pub fn serialize_value(&mut self, value: &FieldValue) -> (r: Result<(), Error>)
        requires
            old(self).field_name is Some,
        ensures
            final(self).field_name is None,
            final(self).wrap_long_lines == old(self).wrap_long_lines,
            ({
                let key = old(self).field_name.unwrap()@;
                &&& key_ok(key) ==> r is Ok && final(self).output@ == old(self).output@
                    + encode_field(key, value@, old(self).wrap_long_lines)
                &&& !key_ok(key) ==> final(self).output@ == old(self).output@ && (r matches Err(e)
                    && key_error_ok(key, e))
            }),
    {
        let mut taken: Option<Vec<u8>> = None;
        core::mem::swap(&mut self.field_name, &mut taken);
        let key = match taken {
            Some(k) => k,
            None => {
                proof {
                    assert(false);
                }
                Vec::new()
            }
        };
        let wrap = self.wrap_long_lines;
        write_field(&mut self.output, wrap, &key, value)
    }

    /// Ends the record and hands the output back.
    pub fn end(self) -> (out: Vec<u8>)
        ensures
            out == self.output,
    {
        self.output
    }
}

/// Serializes a sequence of records, writing a blank line between records.
pub struct SeqSerializer {
    /// The bytes written so far.
    pub output: Vec<u8>,
    /// Whether long lines are wrapped.
    pub wrap_long_lines: bool,
    /// Whether no record has been written yet.
    pub is_empty: bool,
}

impl SeqSerializer {
    /// Writes one record, preceded by a blank line when it is not the first.
    /// On an invalid key the record's valid prefix is already on the wire.
    pub fn serialize_element(&mut self, record: &Vec<(Vec<u8>, FieldValue)>) -> (r: Result<
        (),
        Error,
    >)
        ensures
            final(self).wrap_long_lines == old(self).wrap_long_lines,
            final(self).is_empty == false,
            ({
                let fv = fields_view(record@);
                let b = first_bad_field(fv);
                let sep: Seq<u8> = if old(self).is_empty {
                    Seq::<u8>::empty()
                } else {
                    seq![10u8]
                };
                if b == fv.len() {
                    r is Ok && final(self).output@ == old(self).output@ + sep + encode_fields(
                        fv,
                        old(self).wrap_long_lines,
                    )
                } else {
                    final(self).output@ == old(self).output@ + sep + encode_fields(
                        fv.take(b),
                        old(self).wrap_long_lines,
                    ) && (r matches Err(e) && key_error_ok(fv[b].0, e))
                }
            }),
    {
        if !self.is_empty {
            self.output.push(10);
        }
        self.is_empty = false;
        let wrap = self.wrap_long_lines;
        write_record(&mut self.output, wrap, record)
    }

    /// Ends the sequence and hands the output back.
    pub fn end(self) -> (out: Vec<u8>)
        ensures
            out == self.output,
    {
        self.output
    }
}

} // verus!
