//! The round-trip laws of the codec: decoding an encoded record returns the
//! record, for keys and values the wire format can represent, and re-encoding
//! what was decoded reproduces the original bytes.

use vstd::prelude::*;
use crate::text::{
    is_ws_byte, is_cont_byte, trimmed, trim, split_on, join_on, lines_of,
    lemma_split_on_len, lemma_split_on_no_sep, lemma_split_on_append, lemma_split_on_pieces,
    lemma_split_on_snoc, lemma_find_byte_is, lemma_trim_cons_ws, lemma_trim_snoc_ws,
    lemma_trim_ws_block, lemma_trim_of_trimmed, lemma_trim_pinned, lemma_strip_cont_skip,
    lemma_lines_of_props, lemma_lines_of_append, lemma_lines_of_single, lemma_split_on_first,
    lemma_split_on_last, lemma_lines_first_byte,
};
use crate::de::{
    ScanState, KeyStep, key_step, cont_count, value_raw, value_step, record_step, init_state,
    unfold_spec, unfold_piece, unfold_tail, has_nl_space, split_list_spec,
    lemma_cont_count_exact,
};
use crate::ser::{
    FoldState, ValueView, key_ok, key_sep, piece_mapped, chunk_tail_out, chunk_out, chunk_next,
    finish_out, encode_scalar, encode_list, encode_field, encode_fields, spaces,
    list_tail_out, list_indent,
};

verus! {

/// A key the wire format can carry and recover: valid for encoding, already
/// trimmed, and free of NUL bytes.
pub open spec fn encodable_key(key: Seq<u8>) -> bool {
    key_ok(key) && trimmed(key) && !key.contains(0u8)
}

/// A scalar value the wire format can carry and recover: trimmed as a whole,
/// free of NUL bytes, with every logical line trimmed and no logical line
/// equal to a single dot.
pub open spec fn encodable_scalar(v: Seq<u8>) -> bool {
    &&& trimmed(v)
    &&& !v.contains(0u8)
    &&& forall|i: int|
        0 <= i < split_on(v, 10).len() ==> trimmed(#[trigger] split_on(v, 10)[i]) && split_on(
            v,
            10,
        )[i] != seq![46u8]
}

/// A list item the wire format can carry and recover: trimmed and free of
/// commas and line feeds.
pub open spec fn encodable_item(it: Seq<u8>) -> bool {
    trimmed(it) && !it.contains(44u8) && !it.contains(10u8)
}

/// A field whose wire form decodes back to it: a representable key with a
/// representable scalar or a nonempty list of representable items.  Absent
/// values leave no trace on the wire and are not representable.
pub open spec fn encodable_field(key: Seq<u8>, v: ValueView) -> bool {
    encodable_key(key) && match v {
        ValueView::Absent => false,
        ValueView::Scalar(s) => encodable_scalar(s),
        ValueView::List(l) => l.len() > 0 && forall|i: int|
            0 <= i < l.len() ==> encodable_item(#[trigger] l[i]),
    }
}

/// What decoding must recover from a raw wire value, by the field's shape.
pub open spec fn decodes_to(v: ValueView, raw: Seq<u8>) -> bool {
    match v {
        ValueView::Absent => false,
        ValueView::Scalar(s) => unfold_spec(raw) == s,
        ValueView::List(l) => split_list_spec(raw) == l,
    }
}

/// Splitting a list ignores one leading whitespace byte: the first item is
/// trimmed anyway.
proof fn lemma_split_list_cons_ws(w: u8, x: Seq<u8>)
    requires
        is_ws_byte(w),
    ensures
        split_list_spec(seq![w] + x) == split_list_spec(x),
{
    let s = seq![w] + x;
    assert(s[0] == w);
    assert(w != 44);
    assert(s.drop_first() =~= x);
    let r = split_on(x, 44);
    lemma_split_on_len(x, 44);
    assert(split_on(s, 44) =~~= seq![seq![w] + r[0]] + r.skip(1));
    lemma_trim_cons_ws(w, r[0]);
    assert(split_list_spec(s) =~~= split_list_spec(x));
}

/// Splitting a list ignores one trailing whitespace byte: the last item is
/// trimmed anyway.
proof fn lemma_split_list_snoc_ws(x: Seq<u8>, w: u8)
    requires
        is_ws_byte(w),
    ensures
        split_list_spec(x + seq![w]) == split_list_spec(x),
{
    assert(w != 44);
    lemma_split_on_snoc(x, w, 44);
    lemma_split_on_len(x, 44);
    let r = split_on(x, 44);
    lemma_trim_snoc_ws(r.last(), w);
    assert(split_list_spec(x + seq![w]) =~~= split_list_spec(x));
}

/// Splitting a list ignores outer whitespace altogether: trimming the raw
/// value first changes nothing.
pub proof fn lemma_split_list_trim(x: Seq<u8>)
    ensures
        split_list_spec(trim(x)) == split_list_spec(x),
    decreases x.len(),
{
    if x.len() == 0 {
        assert(trim(x) =~= x);
    } else if is_ws_byte(x[0]) {
        assert(x =~= seq![x[0]] + x.drop_first());
        lemma_trim_cons_ws(x[0], x.drop_first());
        lemma_split_list_cons_ws(x[0], x.drop_first());
        lemma_split_list_trim(x.drop_first());
    } else if is_ws_byte(x.last()) {
        assert(x =~= x.drop_last() + seq![x.last()]);
        lemma_trim_snoc_ws(x.drop_last(), x.last());
        lemma_split_list_snoc_ws(x.drop_last(), x.last());
        lemma_split_list_trim(x.drop_last());
    } else {
        lemma_trim_of_trimmed(x);
    }
}

/// The pieces of a folded body between line feeds: each later segment with
/// its continuation space.
spec fn marked_pieces(pieces: Seq<Seq<u8>>, i: int) -> Seq<Seq<u8>>
    decreases pieces.len() - i,
{
    if i >= pieces.len() {
        seq![]
    } else {
        seq![seq![32u8] + piece_mapped(pieces, i, false)] + marked_pieces(pieces, i + 1)
    }
}

proof fn lemma_marked_pieces_len(pieces: Seq<Seq<u8>>, i: int)
    requires
        0 <= i <= pieces.len(),
    ensures
        marked_pieces(pieces, i).len() == pieces.len() - i,
        forall|j: int|
            0 <= j < pieces.len() - i ==> #[trigger] marked_pieces(pieces, i)[j] == seq![32u8]
                + piece_mapped(pieces, i + j, false),
    decreases pieces.len() - i,
{
    if i < pieces.len() {
        lemma_marked_pieces_len(pieces, i + 1);
        let m = marked_pieces(pieces, i);
        assert forall|j: int| 0 <= j < pieces.len() - i implies #[trigger] m[j] == seq![32u8]
            + piece_mapped(pieces, i + j, false) by {
            if j > 0 {
                assert(m[j] == marked_pieces(pieces, i + 1)[j - 1]);
            }
        }
    }
}

/// Splitting a folded body on line feeds recovers its marked segments.
proof fn lemma_split_of_folded(x0: Seq<u8>, pieces: Seq<Seq<u8>>, i: int)
    requires
        1 <= i <= pieces.len(),
        forall|j: int| 0 <= j < x0.len() ==> x0[j] != 10,
        forall|j: int, k: int|
            0 <= j < pieces.len() && 0 <= k < pieces[j].len() ==> #[trigger] pieces[j][k] != 10,
    ensures
        split_on(x0 + chunk_tail_out(pieces, i, false), 10) == seq![x0] + marked_pieces(
            pieces,
            i,
        ),
    decreases pieces.len() - i,
{
    if i >= pieces.len() {
        assert(x0 + chunk_tail_out(pieces, i, false) =~= x0);
        lemma_split_on_no_sep(x0, 10);
        assert(split_on(x0 + chunk_tail_out(pieces, i, false), 10) =~~= seq![x0]
            + marked_pieces(pieces, i));
    } else {
        let mi = piece_mapped(pieces, i, false);
        assert(forall|k: int| 0 <= k < mi.len() ==> mi[k] != 10);
        let x1 = seq![32u8] + mi;
        assert(forall|k: int| 0 <= k < x1.len() ==> x1[k] != 10);
        assert(x0 + chunk_tail_out(pieces, i, false) =~= x0 + seq![10u8] + (x1 + chunk_tail_out(
            pieces,
            i + 1,
            false,
        )));
        lemma_split_on_append(x0, x1 + chunk_tail_out(pieces, i + 1, false), 10);
        lemma_split_of_folded(x1, pieces, i + 1);
        assert(split_on(x0 + chunk_tail_out(pieces, i, false), 10) =~~= seq![x0]
            + marked_pieces(pieces, i));
    }
}

/// The tail of a separator-joined sequence: each piece from `i` on, preceded
/// by the separator.
spec fn sep_tail(pieces: Seq<Seq<u8>>, i: int, b: u8) -> Seq<u8>
    decreases pieces.len() - i,
{
    if i >= pieces.len() {
        seq![]
    } else {
        seq![b] + pieces[i] + sep_tail(pieces, i + 1, b)
    }
}

proof fn lemma_sep_tail_shift(pieces: Seq<Seq<u8>>, i: int, b: u8)
    requires
        0 <= i <= pieces.len(),
        pieces.len() >= 1,
    ensures
        sep_tail(pieces.drop_first(), i, b) == sep_tail(pieces, i + 1, b),
    decreases pieces.len() - i,
{
    let d = pieces.drop_first();
    assert(d.len() == pieces.len() - 1);
    if i < d.len() {
        assert(d[i] == pieces[i + 1]);
        lemma_sep_tail_shift(pieces, i + 1, b);
        assert(sep_tail(d, i, b) =~= sep_tail(pieces, i + 1, b));
    } else {
        assert(sep_tail(d, i, b) =~= sep_tail(pieces, i + 1, b));
    }
}

proof fn lemma_join_on_tail(pieces: Seq<Seq<u8>>, b: u8)
    requires
        pieces.len() >= 1,
    ensures
        join_on(pieces, b) == pieces[0] + sep_tail(pieces, 1, b),
    decreases pieces.len(),
{
    if pieces.len() == 1 {
        assert(join_on(pieces, b) =~= pieces[0] + sep_tail(pieces, 1, b));
    } else {
        let d = pieces.drop_first();
        lemma_join_on_tail(d, b);
        lemma_sep_tail_shift(pieces, 1, b);
        assert(d[0] == pieces[1]);
        assert(join_on(pieces, b) == pieces[0] + seq![b] + join_on(d, b));
        assert(join_on(d, b) == pieces[1] + sep_tail(pieces, 2, b));
        assert(sep_tail(pieces, 1, b) == seq![b] + pieces[1] + sep_tail(pieces, 2, b));
        assert(join_on(pieces, b) =~= pieces[0] + sep_tail(pieces, 1, b));
    }
}

/// Unfolding the marked segments recovers the original segments, joined back
/// with line feeds.
proof fn lemma_unfold_marked(pp: Seq<Seq<u8>>, pieces: Seq<Seq<u8>>, i: int)
    requires
        1 <= i,
        pp.len() == pieces.len(),
        forall|j: int|
            1 <= j < pieces.len() ==> #[trigger] pp[j] == seq![32u8] + piece_mapped(
                pieces,
                j,
                false,
            ),
        forall|j: int|
            0 <= j < pieces.len() ==> trimmed(#[trigger] pieces[j]) && pieces[j] != seq![46u8],
    ensures
        unfold_tail(pp, i) == sep_tail(pieces, i, 10u8),
    decreases pieces.len() - i,
{
    if i < pieces.len() {
        lemma_unfold_marked(pp, pieces, i + 1);
        let mi = piece_mapped(pieces, i, false);
        let e = pp[i];
        if pieces[i].len() == 0 {
            if i + 1 < pieces.len() {
                assert(mi == seq![46u8]);
                assert(e =~= seq![32u8, 46u8]);
                assert(unfold_piece(e) =~= pieces[i]);
            } else {
                assert(mi =~= Seq::<u8>::empty());
                assert(e =~= seq![32u8]);
                assert(e != seq![32u8, 46u8]);
                lemma_strip_cont_skip(e, 1);
                assert(e.skip(1) =~= pieces[i]);
                assert(unfold_piece(e) =~= pieces[i]);
            }
        } else {
            assert(mi == pieces[i]);
            assert(!is_ws_byte(pieces[i][0]));
            assert(e[1] == pieces[i][0]);
            if e == seq![32u8, 46u8] {
                assert(e.len() == 1 + pieces[i].len());
                assert(pieces[i].len() == 1);
                assert(pieces[i][0] == 46);
                assert(pieces[i] =~= seq![46u8]);
            }
            assert(e != seq![32u8, 46u8]);
            lemma_strip_cont_skip(e, 1);
            assert(e.skip(1) =~= pieces[i]);
            assert(unfold_piece(e) =~= pieces[i]);
        }
        assert(unfold_tail(pp, i) =~= sep_tail(pieces, i, 10u8));
    } else {
        assert(unfold_tail(pp, i) =~= sep_tail(pieces, i, 10u8));
    }
}

/// Unfolding the folded body of a representable nonempty scalar recovers it.
proof fn lemma_unfold_of_folded_body(v: Seq<u8>)
    requires
        encodable_scalar(v),
        v.len() > 0,
    ensures
        unfold_spec(chunk_out(FoldState::FirstLine, v, false)) == v,
{
    let pieces = split_on(v, 10);
    lemma_split_on_len(v, 10);
    lemma_split_on_pieces(v, 10);
    crate::text::lemma_join_split(v, 10);
    let p0 = pieces[0];
    let body = chunk_out(FoldState::FirstLine, v, false);
    assert(body == p0 + chunk_tail_out(pieces, 1, false));
    if pieces.len() == 1 {
        assert(chunk_tail_out(pieces, 1, false) =~= Seq::<u8>::empty());
        assert(body =~= p0);
        assert(join_on(pieces, 10) == p0);
        assert(body == v);
        assert(forall|j: int| 0 <= j < v.len() ==> v[j] != 10);
        assert(!has_nl_space(v));
    } else {
        lemma_split_of_folded(p0, pieces, 1);
        let pp = split_on(body, 10);
        assert(pp == seq![p0] + marked_pieces(pieces, 1));
        lemma_marked_pieces_len(pieces, 1);
        assert(pp.len() == pieces.len());
        assert forall|j: int| 1 <= j < pieces.len() implies #[trigger] pp[j] == seq![32u8]
            + piece_mapped(pieces, j, false) by {
            assert(pp[j] == marked_pieces(pieces, 1)[j - 1]);
        }
        // the body is folded: a line feed followed by a space stands right
        // after the first segment
        assert(chunk_tail_out(pieces, 1, false)[0] == 10);
        assert(chunk_tail_out(pieces, 1, false)[1] == 32);
        assert(body[p0.len() as int] == 10);
        assert(body[p0.len() as int + 1] == 32);
        assert(has_nl_space(body));
        lemma_unfold_marked(pp, pieces, 1);
        lemma_join_on_tail(pieces, 10);
        assert(pp[0] == p0);
        assert(unfold_spec(body) == p0 + unfold_tail(pp, 1));
        assert(unfold_spec(body) == v);
    }
}

/// The continuation lines of a folded scalar, each with its indent and line
/// feed.
spec fn fold_cont_lines(pieces: Seq<Seq<u8>>, i: int) -> Seq<Seq<u8>>
    decreases pieces.len() - i,
{
    if i >= pieces.len() {
        seq![]
    } else {
        seq![seq![32u8] + piece_mapped(pieces, i, false) + seq![10u8]] + fold_cont_lines(
            pieces,
            i + 1,
        )
    }
}

proof fn lemma_fold_cont_props(pieces: Seq<Seq<u8>>, i: int)
    requires
        0 <= i <= pieces.len(),
    ensures
        fold_cont_lines(pieces, i).len() == pieces.len() - i,
        forall|j: int|
            0 <= j < pieces.len() - i ==> (#[trigger] fold_cont_lines(pieces, i)[j]).len() > 0
                && fold_cont_lines(pieces, i)[j][0] == 32,
    decreases pieces.len() - i,
{
    if i < pieces.len() {
        lemma_fold_cont_props(pieces, i + 1);
        let f = fold_cont_lines(pieces, i);
        assert forall|j: int| 0 <= j < pieces.len() - i implies (#[trigger] f[j]).len() > 0
            && f[j][0] == 32 by {
            if j > 0 {
                assert(f[j] == fold_cont_lines(pieces, i + 1)[j - 1]);
            }
        }
    }
}

proof fn lemma_fold_cont_flatten(pieces: Seq<Seq<u8>>, i: int)
    requires
        0 <= i <= pieces.len(),
    ensures
        seq![10u8] + fold_cont_lines(pieces, i).flatten() == chunk_tail_out(pieces, i, false)
            + seq![10u8],
    decreases pieces.len() - i,
{
    if i >= pieces.len() {
        assert(fold_cont_lines(pieces, i).flatten() =~= Seq::<u8>::empty());
        assert(seq![10u8] + fold_cont_lines(pieces, i).flatten() =~= chunk_tail_out(
            pieces,
            i,
            false,
        ) + seq![10u8]);
    } else {
        lemma_fold_cont_flatten(pieces, i + 1);
        let f = fold_cont_lines(pieces, i);
        let mi = piece_mapped(pieces, i, false);
        let hd = seq![32u8] + mi + seq![10u8];
        assert(f.drop_first() =~= fold_cont_lines(pieces, i + 1));
        assert(f.flatten() == f.first().add(f.drop_first().flatten()));
        assert(f.first() == hd);
        let rest_flat = fold_cont_lines(pieces, i + 1).flatten();
        assert(seq![10u8] + f.flatten() =~= (seq![10u8, 32u8] + mi) + (seq![10u8] + rest_flat));
        assert((seq![10u8, 32u8] + mi) + (seq![10u8] + rest_flat) == (seq![10u8, 32u8] + mi) + (
        chunk_tail_out(pieces, i + 1, false) + seq![10u8]));
        assert(chunk_tail_out(pieces, i, false) + seq![10u8] =~= (seq![10u8, 32u8] + mi) + (
        chunk_tail_out(pieces, i + 1, false) + seq![10u8]));
    }
}

proof fn lemma_fold_lines(prefix: Seq<u8>, pieces: Seq<Seq<u8>>, i: int)
    requires
        0 <= i <= pieces.len(),
        forall|j: int| 0 <= j < prefix.len() ==> prefix[j] != 10,
        forall|j: int, k: int|
            0 <= j < pieces.len() && 0 <= k < pieces[j].len() ==> #[trigger] pieces[j][k] != 10,
    ensures
        lines_of(prefix + chunk_tail_out(pieces, i, false) + seq![10u8]) == seq![prefix
            + seq![10u8]] + fold_cont_lines(pieces, i),
    decreases pieces.len() - i,
{
    if i >= pieces.len() {
        assert(prefix + chunk_tail_out(pieces, i, false) + seq![10u8] =~= prefix + seq![10u8]);
        lemma_lines_of_single(prefix);
        assert(lines_of(prefix + chunk_tail_out(pieces, i, false) + seq![10u8]) =~~= seq![prefix
            + seq![10u8]] + fold_cont_lines(pieces, i));
    } else {
        let mi = piece_mapped(pieces, i, false);
        assert(forall|k: int| 0 <= k < mi.len() ==> mi[k] != 10);
        let p1 = seq![32u8] + mi;
        assert(forall|k: int| 0 <= k < p1.len() ==> p1[k] != 10);
        let rest = p1 + chunk_tail_out(pieces, i + 1, false) + seq![10u8];
        assert(prefix + chunk_tail_out(pieces, i, false) + seq![10u8] =~= (prefix + seq![10u8])
            + rest);
        lemma_lines_of_append(prefix + seq![10u8], rest);
        lemma_lines_of_single(prefix);
        lemma_fold_lines(p1, pieces, i + 1);
        assert(p1 + seq![10u8] =~= seq![32u8] + mi + seq![10u8]);
        assert(lines_of(prefix + chunk_tail_out(pieces, i, false) + seq![10u8]) =~~= seq![prefix
            + seq![10u8]] + fold_cont_lines(pieces, i));
    }
}

/// The lines of an encoded scalar field: the key line, then one line per
/// later segment of the folded value.
spec fn scalar_lines(key: Seq<u8>, v: Seq<u8>) -> Seq<Seq<u8>> {
    if v.len() == 0 {
        seq![key + key_sep() + seq![10u8]]
    } else {
        seq![key + key_sep() + split_on(v, 10)[0] + seq![10u8]] + fold_cont_lines(
            split_on(v, 10),
            1,
        )
    }
}

proof fn lemma_scalar_field_lines(key: Seq<u8>, v: Seq<u8>)
    requires
        encodable_key(key),
        encodable_scalar(v),
    ensures
        encode_scalar(key, v, false).len() > 0,
        encode_scalar(key, v, false).last() == 10,
        lines_of(encode_scalar(key, v, false)) == scalar_lines(key, v),
{
    let bytes = encode_scalar(key, v, false);
    assert(forall|j: int| 0 <= j < key.len() ==> key[j] != 10) by {
        assert(forall|j: int| 0 <= j < key.len() ==> key.contains(#[trigger] key[j]));
    }
    if v.len() == 0 {
        assert(chunk_out(FoldState::FirstLine, v, false) == Seq::<u8>::empty());
        assert(chunk_next(FoldState::FirstLine, v) is FirstLine);
        assert(bytes =~= (key + key_sep()) + seq![10u8]);
        let pre = key + key_sep();
        assert(forall|j: int| 0 <= j < pre.len() ==> pre[j] != 10);
        lemma_lines_of_single(pre);
        assert(key + key_sep() + seq![10u8] =~= pre + seq![10u8]);
        assert(lines_of(bytes) =~~= scalar_lines(key, v));
        assert(bytes.last() == 10);
    } else {
        let pieces = split_on(v, 10);
        lemma_split_on_len(v, 10);
        lemma_split_on_pieces(v, 10);
        let p0 = pieces[0];
        // the value does not end in a line feed, so the fold is finished by
        // exactly one
        assert(v.last() != 10);
        assert(!(chunk_next(FoldState::FirstLine, v) is EndedWithNewline));
        assert(finish_out(chunk_next(FoldState::FirstLine, v)) == seq![10u8]);
        let prefix = key + key_sep() + p0;
        assert(forall|j: int| 0 <= j < p0.len() ==> p0[j] != 10);
        assert(forall|j: int| 0 <= j < prefix.len() ==> prefix[j] != 10);
        assert(bytes =~= prefix + chunk_tail_out(pieces, 1, false) + seq![10u8]);
        lemma_fold_lines(prefix, pieces, 1);
        assert(lines_of(bytes) =~~= scalar_lines(key, v));
        assert(bytes.last() == 10);
    }
}

/// The continuation lines of an encoded list field: one aligned line per item
/// past the first, all but the last closed by a comma.
spec fn list_cont_lines(items: Seq<Seq<u8>>, i: int, ind: nat) -> Seq<Seq<u8>>
    decreases items.len() - i,
{
    if i >= items.len() {
        seq![]
    } else {
        seq![spaces(ind) + items[i] + (if i + 1 < items.len() {
            seq![44u8, 10u8]
        } else {
            seq![10u8]
        })] + list_cont_lines(items, i + 1, ind)
    }
}

proof fn lemma_list_cont_props(items: Seq<Seq<u8>>, i: int, ind: nat)
    requires
        0 <= i <= items.len(),
        ind >= 1,
    ensures
        list_cont_lines(items, i, ind).len() == items.len() - i,
        forall|j: int|
            0 <= j < items.len() - i ==> (#[trigger] list_cont_lines(items, i, ind)[j]).len()
                > 0 && list_cont_lines(items, i, ind)[j][0] == 32,
    decreases items.len() - i,
{
    if i < items.len() {
        lemma_list_cont_props(items, i + 1, ind);
        let f = list_cont_lines(items, i, ind);
        assert(spaces(ind)[0] == 32);
        assert forall|j: int| 0 <= j < items.len() - i implies (#[trigger] f[j]).len() > 0
            && f[j][0] == 32 by {
            if j > 0 {
                assert(f[j] == list_cont_lines(items, i + 1, ind)[j - 1]);
            }
        }
    }
}

proof fn lemma_list_cont_flatten(items: Seq<Seq<u8>>, i: int, ind: nat)
    requires
        1 <= i < items.len(),
    ensures
        seq![44u8, 10u8] + list_cont_lines(items, i, ind).flatten() == list_tail_out(
            items,
            i,
            ind,
        ) + seq![10u8],
    decreases items.len() - i,
{
    let f = list_cont_lines(items, i, ind);
    if i + 1 == items.len() {
        let hd = spaces(ind) + items[i] + seq![10u8];
        assert(f =~~= seq![hd]);
        f.lemma_flatten_one_element();
        assert(f.flatten() == hd);
        assert(list_tail_out(items, i + 1, ind) == Seq::<u8>::empty());
        assert(seq![44u8, 10u8] + f.flatten() =~= list_tail_out(items, i, ind) + seq![10u8]);
    } else {
        lemma_list_cont_flatten(items, i + 1, ind);
        let hd = spaces(ind) + items[i] + seq![44u8, 10u8];
        assert(f.drop_first() =~= list_cont_lines(items, i + 1, ind));
        assert(f.flatten() == f.first().add(f.drop_first().flatten()));
        assert(f.first() == hd);
        let rest_flat = list_cont_lines(items, i + 1, ind).flatten();
        assert(seq![44u8, 10u8] + f.flatten() =~= (seq![44u8, 10u8] + spaces(ind) + items[i]) + (
        seq![44u8, 10u8] + rest_flat));
        assert((seq![44u8, 10u8] + spaces(ind) + items[i]) + (seq![44u8, 10u8] + rest_flat) == (
        seq![44u8, 10u8] + spaces(ind) + items[i]) + (list_tail_out(items, i + 1, ind)
            + seq![10u8]));
        assert(list_tail_out(items, i, ind) + seq![10u8] =~= (seq![44u8, 10u8] + spaces(ind)
            + items[i]) + (list_tail_out(items, i + 1, ind) + seq![10u8]));
    }
}

proof fn lemma_list_lines(prefix: Seq<u8>, items: Seq<Seq<u8>>, i: int, ind: nat)
    requires
        0 <= i <= items.len(),
        forall|j: int| 0 <= j < prefix.len() ==> prefix[j] != 10,
        forall|j: int, k: int|
            0 <= j < items.len() && 0 <= k < items[j].len() ==> #[trigger] items[j][k] != 10,
    ensures
        lines_of(prefix + list_tail_out(items, i, ind) + seq![10u8]) == seq![prefix + (if i
            < items.len() {
            seq![44u8, 10u8]
        } else {
            seq![10u8]
        })] + list_cont_lines(items, i, ind),
    decreases items.len() - i,
{
    if i >= items.len() {
        assert(prefix + list_tail_out(items, i, ind) + seq![10u8] =~= prefix + seq![10u8]);
        lemma_lines_of_single(prefix);
        assert(lines_of(prefix + list_tail_out(items, i, ind) + seq![10u8]) =~~= seq![prefix
            + seq![10u8]] + list_cont_lines(items, i, ind));
    } else {
        let p1 = spaces(ind) + items[i];
        assert(forall|j: int| 0 <= j < spaces(ind).len() ==> spaces(ind)[j] == 32);
        assert(forall|j: int| 0 <= j < p1.len() ==> p1[j] != 10);
        let a = prefix + seq![44u8];
        assert(forall|j: int| 0 <= j < a.len() ==> a[j] != 10);
        let rest = p1 + list_tail_out(items, i + 1, ind) + seq![10u8];
        assert(prefix + list_tail_out(items, i, ind) + seq![10u8] =~= (a + seq![10u8]) + rest);
        lemma_lines_of_append(a + seq![10u8], rest);
        lemma_lines_of_single(a);
        lemma_list_lines(p1, items, i + 1, ind);
        assert(a + seq![10u8] =~= prefix + seq![44u8, 10u8]);
        assert(p1 + (if i + 1 < items.len() {
            seq![44u8, 10u8]
        } else {
            seq![10u8]
        }) =~= spaces(ind) + items[i] + (if i + 1 < items.len() {
            seq![44u8, 10u8]
        } else {
            seq![10u8]
        }));
        assert(lines_of(prefix + list_tail_out(items, i, ind) + seq![10u8]) =~~= seq![prefix
            + seq![44u8, 10u8]] + list_cont_lines(items, i, ind));
    }
}

/// The lines of an encoded list field.
spec fn list_lines_of(key: Seq<u8>, items: Seq<Seq<u8>>, ind: nat) -> Seq<Seq<u8>> {
    seq![key + key_sep() + items[0] + (if items.len() > 1 {
        seq![44u8, 10u8]
    } else {
        seq![10u8]
    })] + list_cont_lines(items, 1, ind)
}

proof fn lemma_list_field_lines(key: Seq<u8>, items: Seq<Seq<u8>>)
    requires
        encodable_key(key),
        items.len() > 0,
        forall|i: int| 0 <= i < items.len() ==> encodable_item(#[trigger] items[i]),
    ensures
        encode_list(key, items).len() > 0,
        encode_list(key, items).last() == 10,
        lines_of(encode_list(key, items)) == list_lines_of(key, items, list_indent(key)),
{
    let bytes = encode_list(key, items);
    let ind = list_indent(key);
    assert(forall|j: int| 0 <= j < key.len() ==> key[j] != 10) by {
        assert(forall|j: int| 0 <= j < key.len() ==> key.contains(#[trigger] key[j]));
    }
    assert forall|j: int, k: int|
        0 <= j < items.len() && 0 <= k < items[j].len() implies #[trigger] items[j][k] != 10 by {
        assert(items[j].contains(items[j][k]));
    }
    let prefix = key + key_sep() + items[0];
    assert(forall|j: int| 0 <= j < prefix.len() ==> prefix[j] != 10);
    assert(bytes =~= prefix + list_tail_out(items, 1, ind) + seq![10u8]);
    lemma_list_lines(prefix, items, 1, ind);
    assert(prefix + (if 1 < items.len() {
        seq![44u8, 10u8]
    } else {
        seq![10u8]
    }) =~= key + key_sep() + items[0] + (if items.len() > 1 {
        seq![44u8, 10u8]
    } else {
        seq![10u8]
    }));
    assert(lines_of(bytes) =~~= list_lines_of(key, items, ind));
    assert(bytes.last() == 10);
}

/// Scanning a key line followed by its continuation lines: the key comes
/// back, the raw value is the trimmed join of everything past the colon, and
/// the scanner stops exactly at `tail`.
proof fn lemma_scan_keyed_field(
    st: ScanState,
    key: Seq<u8>,
    x0: Seq<u8>,
    conts: Seq<Seq<u8>>,
    tail: Seq<Seq<u8>>,
)
    requires
        st.rest == seq![key + key_sep() + x0 + seq![10u8]] + conts + tail,
        key.len() > 0,
        !key.contains(58u8),
        !key.contains(10u8),
        forall|j: int|
            0 <= j < conts.len() ==> (#[trigger] conts[j]).len() > 0 && is_cont_byte(
                conts[j][0],
            ),
        tail.len() > 0 ==> tail[0].len() == 0 || !is_cont_byte(tail[0][0]),
    ensures
        ({
            let (k, st1) = key_step(st);
            &&& k == KeyStep::Found(key)
            &&& value_raw(st1) == trim(seq![32u8] + x0 + seq![10u8] + conts.flatten())
            &&& value_step(st1).rest == tail
            &&& value_step(st1).empty == false
            &&& value_step(st1).eof == st.eof
        }),
{
    let line0 = key + key_sep() + x0 + seq![10u8];
    assert(st.rest.len() > 0);
    assert(st.rest[0] == line0);
    assert(line0.len() == key.len() + 2 + x0.len() + 1);
    assert(line0 != seq![10u8]);
    assert(line0[key.len() as int] == 58);
    assert forall|j: int| 0 <= j < key.len() implies line0[j] != 58 by {
        assert(line0[j] == key[j]);
        assert(key.contains(key[j]));
    }
    lemma_find_byte_is(line0, 58, key.len() as int);
    let (k, st1) = key_step(st);
    assert(line0.take(key.len() as int) =~= key);
    assert(k == KeyStep::Found(key));
    assert(st1.rest == st.rest);
    // the continuation scan stops exactly where `tail` begins
    let rest1 = st1.rest.skip(1);
    assert(rest1 =~~= conts + tail);
    assert forall|i: int| 0 <= i < conts.len() implies #[trigger] rest1[i].len() > 0
        && is_cont_byte(rest1[i][0]) by {
        assert(rest1[i] == conts[i]);
    }
    if conts.len() < rest1.len() {
        assert(rest1[conts.len() as int] == tail[0]);
    }
    lemma_cont_count_exact(rest1, conts.len() as int);
    let n = cont_count(rest1);
    assert(n == conts.len());
    assert(st1.rest.subrange(1, 1 + n as int) =~~= conts);
    assert(line0.skip(key.len() as int + 1) =~= seq![32u8] + x0 + seq![10u8]);
    assert(value_raw(st1) == trim(seq![32u8] + x0 + seq![10u8] + conts.flatten()));
    assert(value_step(st1).rest =~~= tail);
    assert(value_step(st1).empty == false);
}

/// Scanning an encoded scalar field recovers its key and, after unfolding,
/// its value.
proof fn lemma_scan_scalar_field(st: ScanState, key: Seq<u8>, v: Seq<u8>, tail: Seq<Seq<u8>>)
    requires
        encodable_key(key),
        encodable_scalar(v),
        st.rest == scalar_lines(key, v) + tail,
        tail.len() > 0 ==> tail[0].len() == 0 || !is_cont_byte(tail[0][0]),
    ensures
        ({
            let (k, st1) = key_step(st);
            &&& k == KeyStep::Found(key)
            &&& unfold_spec(value_raw(st1)) == v
            &&& value_step(st1).rest == tail
            &&& value_step(st1).empty == false
            &&& value_step(st1).eof == st.eof
        }),
{
    if v.len() == 0 {
        let empty_conts = Seq::<Seq<u8>>::empty();
        assert(scalar_lines(key, v)[0] == key + key_sep() + seq![10u8]);
        assert(key + key_sep() + seq![10u8] =~= key + key_sep() + Seq::<u8>::empty()
            + seq![10u8]);
        assert(st.rest =~~= seq![key + key_sep() + Seq::<u8>::empty() + seq![10u8]]
            + empty_conts + tail);
        lemma_scan_keyed_field(st, key, Seq::<u8>::empty(), empty_conts, tail);
        let (k, st1) = key_step(st);
        let raw_in = seq![32u8] + Seq::<u8>::empty() + seq![10u8] + empty_conts.flatten();
        assert(empty_conts.flatten() =~= Seq::<u8>::empty());
        assert(raw_in =~= seq![32u8, 10u8]);
        assert(is_ws_byte(raw_in[0]) && is_ws_byte(raw_in[1]));
        lemma_trim_pinned(raw_in, 1, 1);
        assert(raw_in.subrange(1, 1) =~= Seq::<u8>::empty());
        assert(value_raw(st1) =~= Seq::<u8>::empty());
        assert(!has_nl_space(value_raw(st1)));
        assert(unfold_spec(value_raw(st1)) == v);
    } else {
        let pieces = split_on(v, 10);
        lemma_split_on_len(v, 10);
        lemma_split_on_pieces(v, 10);
        let p0 = pieces[0];
        lemma_split_on_first(v, 10);
        lemma_split_on_last(v, 10);
        assert(p0.len() > 0 && p0[0] == v[0]);
        let conts = fold_cont_lines(pieces, 1);
        lemma_fold_cont_props(pieces, 1);
        assert(scalar_lines(key, v)[0] == key + key_sep() + p0 + seq![10u8]);
        assert(st.rest =~~= seq![key + key_sep() + p0 + seq![10u8]] + conts + tail);
        lemma_scan_keyed_field(st, key, p0, conts, tail);
        let (k, st1) = key_step(st);
        let body = chunk_out(FoldState::FirstLine, v, false);
        assert(body == p0 + chunk_tail_out(pieces, 1, false));
        lemma_fold_cont_flatten(pieces, 1);
        let raw_in = seq![32u8] + p0 + seq![10u8] + conts.flatten();
        let lhs_mid = (seq![32u8] + p0) + (seq![10u8] + conts.flatten());
        assert(raw_in =~= lhs_mid);
        assert(seq![10u8] + conts.flatten() == chunk_tail_out(pieces, 1, false) + seq![10u8]);
        assert(lhs_mid == (seq![32u8] + p0) + (chunk_tail_out(pieces, 1, false) + seq![10u8]));
        assert(seq![32u8] + body + seq![10u8] =~= (seq![32u8] + p0) + (chunk_tail_out(
            pieces,
            1,
            false,
        ) + seq![10u8]));
        assert(raw_in == seq![32u8] + body + seq![10u8]);
        // the body keeps the value's trimmed ends, so the single outer trim
        // peels exactly the sentinel space and line feed
        assert(body[0] == p0[0]);
        assert(!is_ws_byte(body[0]));
        if pieces.len() == 1 {
            assert(chunk_tail_out(pieces, 1, false) =~= Seq::<u8>::empty());
            assert(body =~= p0);
            crate::text::lemma_join_split(v, 10);
            assert(body == v);
            assert(body.last() == v.last());
        } else {
            lemma_chunk_tail_last(pieces, 1);
            assert(piece_mapped(pieces, pieces.len() - 1, false) == pieces.last());
            assert(pieces.last().len() > 0);
            assert(body.last() == chunk_tail_out(pieces, 1, false).last());
            assert(body.last() == pieces.last().last());
            assert(body.last() == v.last());
        }
        assert(!is_ws_byte(body.last()));
        let sandwich = seq![32u8] + body + seq![10u8];
        assert(sandwich.len() == body.len() + 2);
        assert forall|j: int| 1 + body.len() <= j < sandwich.len() implies is_ws_byte(
            sandwich[j],
        ) by {
            assert(sandwich[j] == 10);
        }
        assert(sandwich[1] == body[0]);
        assert(sandwich[body.len() as int] == body.last());
        lemma_trim_pinned(sandwich, 1, 1 + body.len() as int);
        assert(sandwich.subrange(1, 1 + body.len() as int) =~= body);
        assert(value_raw(st1) == body);
        lemma_unfold_of_folded_body(v);
    }
}

/// The last byte of the folded continuation output is the last byte of the
/// final segment, when that segment is nonempty.
proof fn lemma_chunk_tail_last(pieces: Seq<Seq<u8>>, i: int)
    requires
        0 <= i < pieces.len(),
        piece_mapped(pieces, pieces.len() - 1, false).len() > 0,
    ensures
        chunk_tail_out(pieces, i, false).len() > 0,
        chunk_tail_out(pieces, i, false).last() == piece_mapped(
            pieces,
            pieces.len() - 1,
            false,
        ).last(),
    decreases pieces.len() - i,
{
    let mi = piece_mapped(pieces, i, false);
    if i == pieces.len() - 1 {
        assert(chunk_tail_out(pieces, i + 1, false) =~= Seq::<u8>::empty());
        assert(chunk_tail_out(pieces, i, false) =~= seq![10u8, 32u8] + mi);
        assert((seq![10u8, 32u8] + mi).last() == mi.last());
    } else {
        lemma_chunk_tail_last(pieces, i + 1);
        assert(chunk_tail_out(pieces, i, false).last() == chunk_tail_out(
            pieces,
            i + 1,
            false,
        ).last());
    }
}

/// Splitting the wire form of a list on commas and trimming each piece
/// recovers the items.
proof fn lemma_split_list_of_wire(prefix: Seq<u8>, items: Seq<Seq<u8>>, i: int, ind: nat)
    requires
        1 <= i <= items.len(),
        forall|j: int| 0 <= j < prefix.len() ==> prefix[j] != 44,
        forall|j: int| 0 <= j < items.len() ==> encodable_item(#[trigger] items[j]),
    ensures
        split_list_spec(prefix + list_tail_out(items, i, ind) + seq![10u8]) == seq![trim(
            prefix,
        )] + items.skip(i),
    decreases items.len() - i,
{
    if i >= items.len() {
        let s = prefix + list_tail_out(items, i, ind) + seq![10u8];
        assert(s =~= prefix + seq![10u8]);
        lemma_split_list_snoc_ws(prefix, 10);
        lemma_split_on_no_sep(prefix, 44);
        assert(split_list_spec(prefix) =~~= seq![trim(prefix)]);
        assert(split_list_spec(s) =~~= seq![trim(prefix)] + items.skip(i));
    } else {
        let s = prefix + list_tail_out(items, i, ind) + seq![10u8];
        let p1 = seq![10u8] + spaces(ind) + items[i];
        assert(forall|j: int| 0 <= j < spaces(ind).len() ==> spaces(ind)[j] == 32);
        assert forall|j: int| 0 <= j < p1.len() implies p1[j] != 44 by {
            if j >= 1 + ind {
                assert(p1[j] == items[i][j - 1 - ind]);
                assert(items[i].contains(items[i][j - 1 - ind]));
            }
        }
        let c = p1 + list_tail_out(items, i + 1, ind) + seq![10u8];
        assert(s =~= prefix + seq![44u8] + c);
        lemma_split_on_append(prefix, c, 44);
        lemma_split_list_of_wire(p1, items, i + 1, ind);
        // the piece in front of an item is pure whitespace, so trimming the
        // piece leaves the item
        assert(trim(p1) == items[i]) by {
            let ws = seq![10u8] + spaces(ind);
            assert forall|j: int| 0 <= j < ws.len() implies is_ws_byte(#[trigger] ws[j]) by {
                if j >= 1 {
                    assert(ws[j] == spaces(ind)[j - 1]);
                    assert(spaces(ind)[j - 1] == 32);
                }
            }
            assert(p1 =~= ws + items[i]);
            lemma_trim_ws_block(ws, items[i]);
            assert(encodable_item(items[i]));
            lemma_trim_of_trimmed(items[i]);
        }
        lemma_split_on_len(c, 44);
        let lhs = split_list_spec(s);
        let rhs = seq![trim(prefix)] + items.skip(i);
        assert(split_on(s, 44) == seq![prefix] + split_on(c, 44));
        assert(split_list_spec(c) == seq![trim(p1)] + items.skip(i + 1));
        assert forall|k: int| 0 <= k < lhs.len() implies lhs[k] == rhs[k] by {
            if k == 0 {
                assert(split_on(s, 44)[0] == prefix);
                assert(lhs[0] == trim(prefix));
            } else {
                assert(split_on(s, 44)[k] == split_on(c, 44)[k - 1]);
                assert(lhs[k] == trim(split_on(c, 44)[k - 1]));
                assert(split_list_spec(c)[k - 1] == trim(split_on(c, 44)[k - 1]));
                if k == 1 {
                    assert(split_list_spec(c)[0] == trim(p1));
                    assert(rhs[1] == items.skip(i)[0]);
                    assert(items.skip(i)[0] == items[i]);
                } else {
                    assert(split_list_spec(c).len() == 1 + items.skip(i + 1).len());
                    assert(1 <= k - 1 < split_list_spec(c).len());
                    assert(split_list_spec(c)[k - 1] == (seq![trim(p1)] + items.skip(i + 1))[k
                        - 1]);
                    assert((seq![trim(p1)] + items.skip(i + 1))[k - 1] == items.skip(i + 1)[k
                        - 2]);
                    assert(items.skip(i + 1)[k - 2] == items[i + k - 1]);
                    assert(rhs[k] == items.skip(i)[k - 1]);
                    assert(items.skip(i)[k - 1] == items[i + k - 1]);
                }
            }
        }
        assert(lhs.len() == split_on(s, 44).len());
        assert(split_list_spec(c).len() == split_on(c, 44).len());
        assert(split_list_spec(c).len() == 1 + items.skip(i + 1).len());
        assert(lhs.len() == rhs.len());
        assert(lhs =~= rhs);
    }
}

/// Scanning an encoded list field recovers its key and, after splitting on
/// commas, its items.
proof fn lemma_scan_list_field(st: ScanState, key: Seq<u8>, items: Seq<Seq<u8>>, tail: Seq<
    Seq<u8>,
>)
    requires
        encodable_key(key),
        items.len() > 0,
        forall|j: int| 0 <= j < items.len() ==> encodable_item(#[trigger] items[j]),
        st.rest == list_lines_of(key, items, list_indent(key)) + tail,
        tail.len() > 0 ==> tail[0].len() == 0 || !is_cont_byte(tail[0][0]),
    ensures
        ({
            let (k, st1) = key_step(st);
            &&& k == KeyStep::Found(key)
            &&& split_list_spec(value_raw(st1)) == items
            &&& value_step(st1).rest == tail
            &&& value_step(st1).empty == false
            &&& value_step(st1).eof == st.eof
        }),
{
    let ind = list_indent(key);
    let i0 = items[0];
    if items.len() == 1 {
        let empty_conts = Seq::<Seq<u8>>::empty();
        assert(list_cont_lines(items, 1, ind) =~~= empty_conts);
        assert(list_lines_of(key, items, ind)[0] == key + key_sep() + i0 + seq![10u8]);
        assert(st.rest =~~= seq![key + key_sep() + i0 + seq![10u8]] + empty_conts + tail);
        lemma_scan_keyed_field(st, key, i0, empty_conts, tail);
        let (k, st1) = key_step(st);
        let raw_in = seq![32u8] + i0 + seq![10u8] + empty_conts.flatten();
        assert(empty_conts.flatten() =~= Seq::<u8>::empty());
        assert(raw_in =~= seq![32u8] + (i0 + seq![10u8]));
        lemma_trim_cons_ws(32, i0 + seq![10u8]);
        lemma_trim_snoc_ws(i0, 10);
        lemma_trim_of_trimmed(i0);
        assert(value_raw(st1) == i0);
        lemma_split_on_no_sep(i0, 44);
        assert(forall|j: int| 0 <= j < i0.len() ==> i0.contains(#[trigger] i0[j]));
        assert(split_list_spec(i0) =~~= seq![i0]);
        assert(items =~~= seq![i0]);
    } else {
        let conts = list_cont_lines(items, 1, ind);
        lemma_list_cont_props(items, 1, ind);
        let x0 = i0 + seq![44u8];
        assert(list_lines_of(key, items, ind)[0] == key + key_sep() + i0 + seq![44u8, 10u8]);
        assert(key + key_sep() + x0 + seq![10u8] =~= key + key_sep() + i0 + seq![44u8, 10u8]);
        assert(st.rest =~~= seq![key + key_sep() + x0 + seq![10u8]] + conts + tail);
        lemma_scan_keyed_field(st, key, x0, conts, tail);
        let (k, st1) = key_step(st);
        lemma_list_cont_flatten(items, 1, ind);
        let raw_in = seq![32u8] + x0 + seq![10u8] + conts.flatten();
        let wire = seq![32u8] + i0 + list_tail_out(items, 1, ind) + seq![10u8];
        let lhs_mid = (seq![32u8] + i0) + (seq![44u8, 10u8] + conts.flatten());
        assert(raw_in =~= lhs_mid);
        assert(seq![44u8, 10u8] + conts.flatten() == list_tail_out(items, 1, ind) + seq![10u8]);
        assert(lhs_mid == (seq![32u8] + i0) + (list_tail_out(items, 1, ind) + seq![10u8]));
        assert(wire =~= (seq![32u8] + i0) + (list_tail_out(items, 1, ind) + seq![10u8]));
        assert(raw_in == wire);
        lemma_split_list_trim(wire);
        let pre = seq![32u8] + i0;
        assert forall|j: int| 0 <= j < pre.len() implies pre[j] != 44 by {
            if j >= 1 {
                assert(pre[j] == i0[j - 1]);
                assert(i0.contains(i0[j - 1]));
            }
        }
        assert(wire =~= pre + list_tail_out(items, 1, ind) + seq![10u8]);
        lemma_split_list_of_wire(pre, items, 1, ind);
        assert(trim(pre) == i0) by {
            lemma_trim_cons_ws(32, i0);
            lemma_trim_of_trimmed(i0);
        }
        assert(seq![i0] + items.skip(1) =~~= items);
        assert(split_list_spec(value_raw(st1)) == items);
    }
}

/// The physical lines of one encoded field.
spec fn field_lines(key: Seq<u8>, v: ValueView) -> Seq<Seq<u8>> {
    match v {
        ValueView::Absent => seq![],
        ValueView::Scalar(s) => scalar_lines(key, s),
        ValueView::List(l) => list_lines_of(key, l, list_indent(key)),
    }
}

proof fn lemma_field_lines(key: Seq<u8>, v: ValueView)
    requires
        encodable_field(key, v),
    ensures
        encode_field(key, v, false).len() > 0,
        encode_field(key, v, false).last() == 10,
        lines_of(encode_field(key, v, false)) == field_lines(key, v),
        field_lines(key, v).len() > 0,
        field_lines(key, v)[0].len() > 0,
        field_lines(key, v)[0][0] == key[0],
{
    match v {
        ValueView::Absent => {
            assert(false);
        }
        ValueView::Scalar(s) => {
            lemma_scalar_field_lines(key, s);
        }
        ValueView::List(l) => {
            lemma_list_field_lines(key, l);
        }
    }
}

/// Decoding one record of encoded fields recovers every field: the keys come
/// back verbatim, each raw value unfolds or splits back to its value, and the
/// scanner stops exactly at the record boundary that follows, a blank line or
/// the end of the input.
proof fn lemma_scan_encoded_fields(
    fields: Seq<(Seq<u8>, ValueView)>,
    st: ScanState,
    after: Seq<Seq<u8>>,
)
    requires
        forall|i: int|
            0 <= i < fields.len() ==> encodable_field(
                (#[trigger] fields[i]).0,
                fields[i].1,
            ),
        st.rest == lines_of(encode_fields(fields, false)) + after,
        after.len() > 0 ==> after[0] == seq![10u8],
        st.eof == false,
    ensures
        ({
            let (r, st1) = record_step(st);
            &&& r matches Ok(pairs) && pairs.len() == fields.len() && forall|i: int|
                0 <= i < fields.len() ==> (#[trigger] pairs[i]).0 == fields[i].0 && decodes_to(
                    fields[i].1,
                    pairs[i].1,
                )
            &&& st1.rest == (if after.len() == 0 {
                after
            } else {
                after.skip(1)
            })
            &&& st1.eof == (after.len() == 0)
            &&& st1.empty == (after.len() > 0 || (fields.len() == 0 && st.empty))
        }),
    decreases fields.len(),
{
    if fields.len() == 0 {
        assert(encode_fields(fields, false) == Seq::<u8>::empty());
        lemma_lines_of_props(Seq::<u8>::empty());
        assert(st.rest =~~= after);
        let (k, st1) = key_step(st);
        if after.len() == 0 {
            assert(k is Eof);
        } else {
            assert(st.rest[0] == seq![10u8]);
            assert(k is Blank);
            assert(st1.rest =~~= after.skip(1));
        }
    } else {
        let f0 = fields[0];
        let rest_fields = fields.drop_first();
        assert(forall|i: int|
            0 <= i < rest_fields.len() ==> #[trigger] rest_fields[i] == fields[i + 1]);
        let f0_bytes = encode_field(f0.0, f0.1, false);
        let rest_bytes = encode_fields(rest_fields, false);
        assert(encode_fields(fields, false) == f0_bytes + rest_bytes);
        lemma_field_lines(f0.0, f0.1);
        lemma_lines_of_append(f0_bytes, rest_bytes);
        let tail = lines_of(rest_bytes) + after;
        assert(st.rest =~~= field_lines(f0.0, f0.1) + tail);
        if lines_of(rest_bytes).len() > 0 {
            assert(rest_fields.len() > 0) by {
                if rest_fields.len() == 0 {
                    assert(rest_bytes == Seq::<u8>::empty());
                    lemma_lines_of_props(Seq::<u8>::empty());
                }
            }
            let f1 = rest_fields[0];
            assert(encodable_field(f1.0, f1.1));
            assert(rest_bytes == encode_field(f1.0, f1.1, false) + encode_fields(
                rest_fields.drop_first(),
                false,
            ));
            lemma_field_lines(f1.0, f1.1);
            assert(rest_bytes.len() > 0);
            assert(rest_bytes[0] == f1.0[0]) by {
                assert((encode_field(f1.0, f1.1, false) + encode_fields(
                    rest_fields.drop_first(),
                    false,
                ))[0] == encode_field(f1.0, f1.1, false)[0]);
                lemma_lines_first_byte(encode_field(f1.0, f1.1, false));
                assert(field_lines(f1.0, f1.1)[0][0] == f1.0[0]);
            }
            crate::text::lemma_lines_first_byte(rest_bytes);
            assert(tail[0] == lines_of(rest_bytes)[0]);
            assert(tail[0].len() > 0 && tail[0][0] == f1.0[0]);
            assert(!is_ws_byte(f1.0[0]));
            assert(!is_cont_byte(tail[0][0]));
        } else {
            assert(tail =~~= after);
            if after.len() > 0 {
                assert(tail[0] == seq![10u8]);
                assert(!is_cont_byte(tail[0][0]));
            }
        }
        let (k, st1) = key_step(st);
        match f0.1 {
            ValueView::Absent => {
                assert(false);
            }
            ValueView::Scalar(s) => {
                lemma_scan_scalar_field(st, f0.0, s, tail);
            }
            ValueView::List(l) => {
                lemma_scan_list_field(st, f0.0, l, tail);
            }
        }
        assert(k == KeyStep::Found(f0.0));
        let st2 = value_step(st1);
        assert(st2.rest == tail);
        assert(st2.rest =~~= lines_of(encode_fields(rest_fields, false)) + after);
        lemma_scan_encoded_fields(rest_fields, st2, after);
        let (rr, st3) = record_step(st2);
        let (r, stf) = record_step(st);
        match rr {
            Ok(rest_pairs) => {
                assert(r == Ok::<_, int>(seq![(f0.0, value_raw(st1))] + rest_pairs));
                match r {
                    Ok(pairs) => {
                        assert(pairs.len() == fields.len());
                        assert forall|i: int| 0 <= i < fields.len() implies (#[trigger] pairs[
                            i
                        ]).0 == fields[i].0 && decodes_to(fields[i].1, pairs[i].1) by {
                            if i == 0 {
                                assert(pairs[0] == (f0.0, value_raw(st1)));
                            } else {
                                assert(pairs[i] == rest_pairs[i - 1]);
                                assert(rest_fields[i - 1] == fields[i]);
                            }
                        }
                    }
                    Err(_) => {
                        assert(false);
                    }
                }
            }
            Err(_) => {
                assert(false);
            }
        }
    }
}

/// For every mapping of representable keys to representable scalar values,
/// decoding the encoded record yields exactly those keys with raw values
/// that unfold back to the original values.
pub proof fn lemma_scalar_round_trip(fields: Seq<(Seq<u8>, Seq<u8>)>)
    requires
        forall|i: int|
            0 <= i < fields.len() ==> encodable_key((#[trigger] fields[i]).0)
                && encodable_scalar(fields[i].1),
    ensures
        ({
            let shaped = fields.map_values(|f: (Seq<u8>, Seq<u8>)| (f.0, ValueView::Scalar(f.1)));
            let wire = encode_fields(shaped, false);
            let (r, st1) = record_step(init_state(wire));
            r matches Ok(pairs) && pairs.len() == fields.len() && forall|i: int|
                0 <= i < fields.len() ==> (#[trigger] pairs[i]).0 == fields[i].0 && unfold_spec(
                    pairs[i].1,
                ) == fields[i].1
        }),
{
    let shaped = fields.map_values(|f: (Seq<u8>, Seq<u8>)| (f.0, ValueView::Scalar(f.1)));
    assert(forall|i: int|
        0 <= i < shaped.len() ==> (#[trigger] shaped[i]) == (fields[i].0, ValueView::Scalar(
            fields[i].1,
        )));
    let st0 = init_state(encode_fields(shaped, false));
    assert(st0.rest =~~= lines_of(encode_fields(shaped, false)) + Seq::<Seq<u8>>::empty());
    lemma_scan_encoded_fields(shaped, st0, Seq::<Seq<u8>>::empty());
}

/// For every mapping of representable keys to nonempty lists of representable
/// items, decoding the encoded record yields exactly those keys with raw
/// values that split back into the original items.
pub proof fn lemma_list_round_trip(fields: Seq<(Seq<u8>, Seq<Seq<u8>>)>)
    requires
        forall|i: int|
            0 <= i < fields.len() ==> encodable_key((#[trigger] fields[i]).0) && fields[i].1.len()
                > 0 && (forall|j: int|
                0 <= j < fields[i].1.len() ==> encodable_item(#[trigger] fields[i].1[j])),
    ensures
        ({
            let shaped = fields.map_values(
                |f: (Seq<u8>, Seq<Seq<u8>>)| (f.0, ValueView::List(f.1)),
            );
            let wire = encode_fields(shaped, false);
            let (r, st1) = record_step(init_state(wire));
            r matches Ok(pairs) && pairs.len() == fields.len() && forall|i: int|
                0 <= i < fields.len() ==> (#[trigger] pairs[i]).0 == fields[i].0
                    && split_list_spec(pairs[i].1) == fields[i].1
        }),
{
    let shaped = fields.map_values(|f: (Seq<u8>, Seq<Seq<u8>>)| (f.0, ValueView::List(f.1)));
    assert(forall|i: int|
        0 <= i < shaped.len() ==> (#[trigger] shaped[i]) == (fields[i].0, ValueView::List(
            fields[i].1,
        )));
    let st0 = init_state(encode_fields(shaped, false));
    assert(st0.rest =~~= lines_of(encode_fields(shaped, false)) + Seq::<Seq<u8>>::empty());
    lemma_scan_encoded_fields(shaped, st0, Seq::<Seq<u8>>::empty());
}

/// The value a decoded raw wire value stands for, given the shape the field
/// was encoded with.
pub open spec fn redecoded(v: ValueView, raw: Seq<u8>) -> ValueView {
    match v {
        ValueView::Absent => ValueView::Absent,
        ValueView::Scalar(_) => ValueView::Scalar(unfold_spec(raw)),
        ValueView::List(_) => ValueView::List(split_list_spec(raw)),
    }
}

/// Re-encoding a decoded record reproduces the original bytes: decoding the
/// wire form of representable fields and encoding the decoded values again
/// yields the same wire bytes.
pub proof fn lemma_reencode_identity(fields: Seq<(Seq<u8>, ValueView)>)
    requires
        forall|i: int|
            0 <= i < fields.len() ==> encodable_field((#[trigger] fields[i]).0, fields[i].1),
    ensures
        ({
            let wire = encode_fields(fields, false);
            let (r, st1) = record_step(init_state(wire));
            r matches Ok(pairs) && encode_fields(
                Seq::new(
                    fields.len(),
                    |i: int| (pairs[i].0, redecoded(fields[i].1, pairs[i].1)),
                ),
                false,
            ) == wire
        }),
{
    let wire = encode_fields(fields, false);
    let st0 = init_state(wire);
    assert(st0.rest =~~= lines_of(wire) + Seq::<Seq<u8>>::empty());
    lemma_scan_encoded_fields(fields, st0, Seq::<Seq<u8>>::empty());
    let (r, st1) = record_step(init_state(wire));
    match r {
        Ok(pairs) => {
            let rebuilt = Seq::new(
                fields.len(),
                |i: int| (pairs[i].0, redecoded(fields[i].1, pairs[i].1)),
            );
            assert forall|i: int| 0 <= i < fields.len() implies rebuilt[i] == #[trigger] fields[
                i
            ] by {
                assert(pairs[i].0 == fields[i].0);
                assert(decodes_to(fields[i].1, pairs[i].1));
            }
            assert(rebuilt =~= fields);
        }
        Err(_) => {
            assert(false);
        }
    }
}

/// The wire form of the records past the first, each preceded by the blank
/// separator line.
pub open spec fn encode_stream_tail(records: Seq<Seq<(Seq<u8>, ValueView)>>, i: int) -> Seq<u8>
    decreases records.len() - i,
{
    if i >= records.len() {
        seq![]
    } else {
        seq![10u8] + encode_fields(records[i], false) + encode_stream_tail(records, i + 1)
    }
}

/// A sequence of records on the wire: the records in order, separated by
/// blank lines.
pub open spec fn encode_stream(records: Seq<Seq<(Seq<u8>, ValueView)>>) -> Seq<u8> {
    if records.len() == 0 {
        seq![]
    } else {
        encode_fields(records[0], false) + encode_stream_tail(records, 1)
    }
}

/// A record of representable fields ends on the wire with a line feed.
proof fn lemma_encode_fields_last(fields: Seq<(Seq<u8>, ValueView)>)
    requires
        fields.len() > 0,
        forall|i: int|
            0 <= i < fields.len() ==> encodable_field(
                (#[trigger] fields[i]).0,
                fields[i].1,
            ),
    ensures
        encode_fields(fields, false).len() > 0,
        encode_fields(fields, false).last() == 10,
    decreases fields.len(),
{
    let f0 = fields[0];
    let rest_fields = fields.drop_first();
    assert(forall|i: int|
        0 <= i < rest_fields.len() ==> #[trigger] rest_fields[i] == fields[i + 1]);
    lemma_field_lines(f0.0, f0.1);
    let f0_bytes = encode_field(f0.0, f0.1, false);
    let rest_bytes = encode_fields(rest_fields, false);
    assert(encode_fields(fields, false) == f0_bytes + rest_bytes);
    if rest_fields.len() == 0 {
        assert(rest_bytes =~= Seq::<u8>::empty());
        assert((f0_bytes + rest_bytes).last() == f0_bytes.last());
    } else {
        lemma_encode_fields_last(rest_fields);
        assert((f0_bytes + rest_bytes).last() == rest_bytes.last());
    }
}

/// The physical lines of the stream past record `i`: a blank line before
/// each further record's lines.
spec fn stream_tail_lines(records: Seq<Seq<(Seq<u8>, ValueView)>>, i: int) -> Seq<Seq<u8>>
    decreases records.len() - i,
{
    if i >= records.len() {
        seq![]
    } else {
        seq![seq![10u8]] + lines_of(encode_fields(records[i], false)) + stream_tail_lines(
            records,
            i + 1,
        )
    }
}

proof fn lemma_stream_tail_lines(records: Seq<Seq<(Seq<u8>, ValueView)>>, i: int)
    requires
        0 <= i <= records.len(),
        forall|r: int, j: int|
            0 <= r < records.len() && 0 <= j < records[r].len() ==> encodable_field(
                (#[trigger] records[r][j]).0,
                records[r][j].1,
            ),
        forall|r: int| 0 <= r < records.len() ==> (#[trigger] records[r]).len() > 0,
    ensures
        lines_of(encode_stream_tail(records, i)) == stream_tail_lines(records, i),
    decreases records.len() - i,
{
    if i >= records.len() {
        lemma_lines_of_props(Seq::<u8>::empty());
        assert(lines_of(encode_stream_tail(records, i)) =~~= stream_tail_lines(records, i));
    } else {
        lemma_stream_tail_lines(records, i + 1);
        let ri = records[i];
        assert(forall|j: int|
            0 <= j < ri.len() ==> encodable_field((#[trigger] ri[j]).0, ri[j].1));
        lemma_encode_fields_last(ri);
        let ri_bytes = encode_fields(ri, false);
        let rest = encode_stream_tail(records, i + 1);
        assert(encode_stream_tail(records, i) =~= seq![10u8] + (ri_bytes + rest));
        lemma_lines_of_append(seq![10u8], ri_bytes + rest);
        lemma_lines_of_single(Seq::<u8>::empty());
        assert(Seq::<u8>::empty() + seq![10u8] =~= seq![10u8]);
        assert(lines_of(seq![10u8]) =~~= seq![seq![10u8]]);
        lemma_lines_of_append(ri_bytes, rest);
        assert(lines_of(encode_stream_tail(records, i)) =~~= stream_tail_lines(records, i));
    }
}

/// Scanning a stream of encoded records with the sequence termination rule
/// recovers every record.
proof fn lemma_scan_stream(records: Seq<Seq<(Seq<u8>, ValueView)>>, st: ScanState)
    requires
        forall|r: int, j: int|
            0 <= r < records.len() && 0 <= j < records[r].len() ==> encodable_field(
                (#[trigger] records[r][j]).0,
                records[r][j].1,
            ),
        forall|r: int| 0 <= r < records.len() ==> (#[trigger] records[r]).len() > 0,
        records.len() > 0 ==> st.rest == lines_of(encode_fields(records[0], false))
            + stream_tail_lines(records, 1),
        records.len() == 0 ==> st.rest.len() == 0,
        st.eof == false,
    ensures
        ({
            let (rr, stf) = crate::de::records_step(st);
            rr matches Ok(recs) && recs.len() == records.len() && forall|r: int, j: int|
                0 <= r < records.len() && 0 <= j < records[r].len()
                    ==> (#[trigger] recs[r][j]).0 == records[r][j].0 && recs[r].len()
                    == records[r].len() && decodes_to(records[r][j].1, recs[r][j].1)
        }),
    decreases records.len(),
{
    if records.len() == 0 {
        let (r0, st1) = record_step(st);
        lemma_lines_of_props(Seq::<u8>::empty());
        assert(st.rest =~~= Seq::<Seq<u8>>::empty());
        assert(lines_of(encode_fields(Seq::<(Seq<u8>, ValueView)>::empty(), false))
            + Seq::<Seq<u8>>::empty() =~~= st.rest);
        lemma_scan_encoded_fields(
            Seq::<(Seq<u8>, ValueView)>::empty(),
            st,
            Seq::<Seq<u8>>::empty(),
        );
        match r0 {
            Ok(fields) => {
                assert(fields.len() == 0);
            }
            Err(_) => {
                assert(false);
            }
        }
    } else {
        let after = stream_tail_lines(records, 1);
        if records.len() > 1 {
            assert(after[0] == seq![10u8]);
        }
        lemma_scan_encoded_fields(records[0], st, after);
        let (r0, st1) = record_step(st);
        match r0 {
            Ok(pairs0) => {
                assert(pairs0.len() == records[0].len());
                assert(pairs0.len() > 0);
                let rest_records = records.drop_first();
                assert(forall|r: int|
                    0 <= r < rest_records.len() ==> #[trigger] rest_records[r] == records[r
                        + 1]);
                if records.len() == 1 {
                    assert(after.len() == 0);
                    assert(st1.eof == true);
                    let (rr1, stf1) = crate::de::records_step(st1);
                    assert(rr1 == Ok::<Seq<Seq<(Seq<u8>, Seq<u8>)>>, int>(seq![]));
                    let (rr, stf) = crate::de::records_step(st);
                    match rr {
                        Ok(recs) => {
                            assert(recs =~~= seq![pairs0]);
                            assert forall|r: int, j: int|
                                0 <= r < records.len() && 0 <= j < records[r].len()
                                    implies (#[trigger] recs[r][j]).0 == records[r][j].0
                                    && recs[r].len() == records[r].len() && decodes_to(
                                    records[r][j].1,
                                    recs[r][j].1,
                                ) by {
                                assert(recs[0] == pairs0);
                            }
                        }
                        Err(_) => {
                            assert(false);
                        }
                    }
                } else {
                    assert(after.len() > 0);
                    assert(st1.eof == false);
                    assert(st1.rest == after.skip(1));
                    assert(st1.rest =~~= lines_of(encode_fields(rest_records[0], false))
                        + stream_tail_lines(rest_records, 1)) by {
                        assert(rest_records[0] == records[1]);
                        lemma_stream_tail_shift(records, 1);
                    }
                    lemma_scan_stream(rest_records, st1);
                    let (rr1, stf1) = crate::de::records_step(st1);
                    let (rr, stf) = crate::de::records_step(st);
                    match rr1 {
                        Ok(rest_recs) => {
                            assert(rr == Ok::<Seq<Seq<(Seq<u8>, Seq<u8>)>>, int>(
                                seq![pairs0] + rest_recs,
                            ));
                            match rr {
                                Ok(recs) => {
                                    assert(recs.len() == records.len());
                                    assert forall|r: int, j: int|
                                        0 <= r < records.len() && 0 <= j < records[r].len()
                                            implies (#[trigger] recs[r][j]).0 == records[r][
                                            j
                                        ].0 && recs[r].len() == records[r].len()
                                            && decodes_to(records[r][j].1, recs[r][j].1) by {
                                        if r == 0 {
                                            assert(recs[0] == pairs0);
                                        } else {
                                            assert(recs[r] == rest_recs[r - 1]);
                                            assert(rest_records[r - 1] == records[r]);
                                        }
                                    }
                                }
                                Err(_) => {
                                    assert(false);
                                }
                            }
                        }
                        Err(_) => {
                            assert(false);
                        }
                    }
                }
            }
            Err(_) => {
                assert(false);
            }
        }
    }
}

/// Dropping the first record shifts the stream's later lines by one record.
proof fn lemma_stream_tail_shift(records: Seq<Seq<(Seq<u8>, ValueView)>>, i: int)
    requires
        1 <= i < records.len(),
    ensures
        stream_tail_lines(records, i).skip(1) == lines_of(encode_fields(records[i], false))
            + stream_tail_lines(records.drop_first(), i),
{
    lemma_stream_tail_eq(records, i + 1);
    assert(stream_tail_lines(records, i).skip(1) =~~= lines_of(encode_fields(
        records[i],
        false,
    )) + stream_tail_lines(records.drop_first(), i));
}

/// The stream's later lines only depend on the records from `i` on.
proof fn lemma_stream_tail_eq(records: Seq<Seq<(Seq<u8>, ValueView)>>, i: int)
    requires
        1 <= i <= records.len(),
    ensures
        stream_tail_lines(records, i) == stream_tail_lines(records.drop_first(), i - 1),
    decreases records.len() - i,
{
    let d = records.drop_first();
    if i < records.len() {
        assert(d[i - 1] == records[i]);
        lemma_stream_tail_eq(records, i + 1);
        assert(stream_tail_lines(records, i) =~~= stream_tail_lines(d, i - 1));
    } else {
        assert(stream_tail_lines(records, i) =~~= stream_tail_lines(d, i - 1));
    }
}

/// For every sequence of records of representable fields, decoding the
/// blank-line-separated stream of their encodings, with the sequence
/// termination rule, recovers every record in order.
pub proof fn lemma_stream_round_trip(records: Seq<Seq<(Seq<u8>, ValueView)>>)
    requires
        forall|r: int, j: int|
            0 <= r < records.len() && 0 <= j < records[r].len() ==> encodable_field(
                (#[trigger] records[r][j]).0,
                records[r][j].1,
            ),
        forall|r: int| 0 <= r < records.len() ==> (#[trigger] records[r]).len() > 0,
    ensures
        ({
            let wire = encode_stream(records);
            let (rr, stf) = crate::de::records_step(init_state(wire));
            rr matches Ok(recs) && recs.len() == records.len() && forall|r: int, j: int|
                0 <= r < records.len() && 0 <= j < records[r].len()
                    ==> (#[trigger] recs[r][j]).0 == records[r][j].0 && recs[r].len()
                    == records[r].len() && decodes_to(records[r][j].1, recs[r][j].1)
        }),
{
    let wire = encode_stream(records);
    let st = init_state(wire);
    if records.len() == 0 {
        lemma_lines_of_props(Seq::<u8>::empty());
        assert(st.rest.len() == 0);
    } else {
        lemma_stream_tail_lines(records, 1);
        assert(forall|j: int|
            0 <= j < records[0].len() ==> encodable_field(
                (#[trigger] records[0][j]).0,
                records[0][j].1,
            ));
        lemma_encode_fields_last(records[0]);
        lemma_lines_of_append(encode_fields(records[0], false), encode_stream_tail(records, 1));
        assert(st.rest == lines_of(encode_fields(records[0], false)) + stream_tail_lines(
            records,
            1,
        ));
    }
    lemma_scan_stream(records, st);
}

} // verus!
