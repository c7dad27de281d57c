//! Byte-level text primitives shared by the decoder and the encoder:
//! whitespace predicates, trimming, splitting on a separator byte, and
//! splitting a byte stream into physical lines.

use vstd::prelude::*;

verus! {

/// The ASCII space or horizontal tab: the bytes that open a physical
/// continuation line.
pub open spec fn is_cont_byte(b: u8) -> bool {
    b == 32 || b == 9
}

/// The ASCII whitespace bytes stripped by trimming: tab, line feed, vertical
/// tab, form feed, carriage return and space.
pub open spec fn is_ws_byte(b: u8) -> bool {
    b == 9 || b == 10 || b == 11 || b == 12 || b == 13 || b == 32
}

/// Holds when the bytes carry no leading and no trailing whitespace.
pub open spec fn trimmed(s: Seq<u8>) -> bool {
    s.len() > 0 ==> !is_ws_byte(s[0]) && !is_ws_byte(s.last())
}

/// The index of the first occurrence of `b` in `s`, if any.
pub open spec fn find_byte(s: Seq<u8>, b: u8) -> Option<int>
    decreases s.len(),
{
    if s.len() == 0 {
        None
    } else if s[0] == b {
        Some(0)
    } else {
        match find_byte(s.drop_first(), b) {
            None => None,
            Some(i) => Some(i + 1),
        }
    }
}

pub proof fn lemma_find_byte(s: Seq<u8>, b: u8)
    ensures
        match find_byte(s, b) {
            Some(i) => 0 <= i < s.len() && s[i] == b && forall|j: int| 0 <= j < i ==> s[j] != b,
            None => forall|j: int| 0 <= j < s.len() ==> s[j] != b,
        },
    decreases s.len(),
{
    if s.len() > 0 && s[0] != b {
        lemma_find_byte(s.drop_first(), b);
        match find_byte(s, b) {
            Some(i) => {
                assert forall|j: int| 0 <= j < i implies s[j] != b by {
                    if j > 0 {
                        assert(s.drop_first()[j - 1] == s[j]);
                    }
                }
            }
            None => {
                assert forall|j: int| 0 <= j < s.len() implies s[j] != b by {
                    if j > 0 {
                        assert(s.drop_first()[j - 1] == s[j]);
                    }
                }
            }
        }
    }
}

/// `find_byte` returns exactly the least index holding `b`.
pub proof fn lemma_find_byte_is(s: Seq<u8>, b: u8, i: int)
    requires
        0 <= i < s.len(),
        s[i] == b,
        forall|j: int| 0 <= j < i ==> s[j] != b,
    ensures
        find_byte(s, b) == Some(i),
{
    lemma_find_byte(s, b);
    match find_byte(s, b) {
        None => {
            assert(s[i] != b);
        }
        Some(k) => {
            if k < i {
                assert(s[k] != b);
            } else if i < k {
                assert(s[i] != b);
            }
        }
    }
}

/// `s` split at every occurrence of `b`; the separators are dropped, and the
/// result always holds at least one (possibly empty) piece.
pub open spec fn split_on(s: Seq<u8>, b: u8) -> Seq<Seq<u8>>
    decreases s.len(),
{
    if s.len() == 0 {
        seq![seq![]]
    } else if s[0] == b {
        seq![seq![]] + split_on(s.drop_first(), b)
    } else {
        let r = split_on(s.drop_first(), b);
        seq![seq![s[0]] + r[0]] + r.skip(1)
    }
}

pub proof fn lemma_split_on_len(s: Seq<u8>, b: u8)
    ensures
        split_on(s, b).len() >= 1,
    decreases s.len(),
{
    if s.len() > 0 {
        lemma_split_on_len(s.drop_first(), b);
    }
}

/// Splitting a separator-free sequence yields that sequence alone.
pub proof fn lemma_split_on_no_sep(s: Seq<u8>, b: u8)
    requires
        forall|j: int| 0 <= j < s.len() ==> s[j] != b,
    ensures
        split_on(s, b) == seq![s],
    decreases s.len(),
{
    if s.len() == 0 {
        assert(split_on(s, b) =~~= seq![s]);
    } else {
        assert(forall|j: int| 0 <= j < s.drop_first().len() ==> s.drop_first()[j] != b);
        lemma_split_on_no_sep(s.drop_first(), b);
        lemma_split_on_len(s.drop_first(), b);
        assert(seq![s[0]] + s.drop_first() =~= s);
        assert(split_on(s, b) =~~= seq![s]);
    }
}

/// Splitting `a + [b] + c` when `a` is separator-free peels `a` off the front.
pub proof fn lemma_split_on_append(a: Seq<u8>, c: Seq<u8>, b: u8)
    requires
        forall|j: int| 0 <= j < a.len() ==> a[j] != b,
    ensures
        split_on(a + seq![b] + c, b) == seq![a] + split_on(c, b),
    decreases a.len(),
{
    let s = a + seq![b] + c;
    if a.len() == 0 {
        assert(s[0] == b);
        assert(s.drop_first() =~= c);
        assert(split_on(s, b) =~~= seq![a] + split_on(c, b));
    } else {
        assert(s[0] == a[0]);
        assert(s[0] != b);
        assert(s.drop_first() =~= a.drop_first() + seq![b] + c);
        assert(forall|j: int| 0 <= j < a.drop_first().len() ==> a.drop_first()[j] != b);
        lemma_split_on_append(a.drop_first(), c, b);
        let r = split_on(s.drop_first(), b);
        lemma_split_on_len(c, b);
        assert(r[0] == a.drop_first());
        assert(seq![s[0]] + r[0] =~= a);
        assert(r.skip(1) =~= split_on(c, b));
        assert(split_on(s, b) =~~= seq![a] + split_on(c, b));
    }
}

/// No piece produced by `split_on` contains the separator.
pub proof fn lemma_split_on_pieces(s: Seq<u8>, b: u8)
    ensures
        forall|i: int, j: int|
            0 <= i < split_on(s, b).len() && 0 <= j < split_on(s, b)[i].len()
                ==> #[trigger] split_on(s, b)[i][j] != b,
    decreases s.len(),
{
    if s.len() > 0 {
        lemma_split_on_pieces(s.drop_first(), b);
        let r = split_on(s.drop_first(), b);
        lemma_split_on_len(s.drop_first(), b);
        if s[0] != b {
            assert forall|i: int, j: int|
                0 <= i < split_on(s, b).len() && 0 <= j < split_on(s, b)[i].len()
                    implies #[trigger] split_on(s, b)[i][j] != b by {
                if i == 0 {
                    if j > 0 {
                        assert(split_on(s, b)[0][j] == r[0][j - 1]);
                    }
                } else {
                    assert(split_on(s, b)[i] == r[i]);
                }
            }
        }
    }
}

/// `s` with its leading run of whitespace removed.
pub open spec fn trim_start(s: Seq<u8>) -> Seq<u8>
    decreases s.len(),
{
    if s.len() > 0 && is_ws_byte(s[0]) {
        trim_start(s.drop_first())
    } else {
        s
    }
}

/// `s` with its trailing run of whitespace removed.
pub open spec fn trim_end(s: Seq<u8>) -> Seq<u8>
    decreases s.len(),
{
    if s.len() > 0 && is_ws_byte(s.last()) {
        trim_end(s.drop_last())
    } else {
        s
    }
}

/// `s` with whitespace removed from both ends.
pub open spec fn trim(s: Seq<u8>) -> Seq<u8> {
    trim_end(trim_start(s))
}

pub proof fn lemma_trim_start_skip(s: Seq<u8>, a: int)
    requires
        0 <= a <= s.len(),
        forall|j: int| 0 <= j < a ==> is_ws_byte(s[j]),
        a < s.len() ==> !is_ws_byte(s[a]),
    ensures
        trim_start(s) == s.skip(a),
    decreases a,
{
    if a == 0 {
        assert(trim_start(s) =~= s.skip(0));
    } else {
        let t = s.drop_first();
        assert(forall|j: int| 0 <= j < a - 1 ==> is_ws_byte(#[trigger] t[j]) && t[j] == s[j + 1]);
        lemma_trim_start_skip(t, a - 1);
        assert(t.skip(a - 1) =~= s.skip(a));
    }
}

pub proof fn lemma_trim_start_all_ws(s: Seq<u8>)
    requires
        forall|j: int| 0 <= j < s.len() ==> is_ws_byte(s[j]),
    ensures
        trim_start(s) == Seq::<u8>::empty(),
    decreases s.len(),
{
    if s.len() > 0 {
        assert(forall|j: int|
            0 <= j < s.drop_first().len() ==> is_ws_byte(#[trigger] s.drop_first()[j]));
        lemma_trim_start_all_ws(s.drop_first());
    } else {
        assert(s =~= Seq::<u8>::empty());
    }
}

pub proof fn lemma_trim_end_take(s: Seq<u8>, b: int)
    requires
        0 <= b <= s.len(),
        forall|j: int| b <= j < s.len() ==> is_ws_byte(s[j]),
        b > 0 ==> !is_ws_byte(s[b - 1]),
    ensures
        trim_end(s) == s.take(b),
    decreases s.len() - b,
{
    if b == s.len() {
        assert(trim_end(s) =~= s.take(b));
    } else {
        let t = s.drop_last();
        assert(is_ws_byte(s.last()));
        assert(forall|j: int| b <= j < t.len() ==> is_ws_byte(#[trigger] t[j]));
        lemma_trim_end_take(t, b);
        assert(t.take(b) =~= s.take(b));
    }
}

/// The trimmed form of `s`, pinned to the subrange `[a, b)` by a whitespace
/// sandwich: everything outside is whitespace, and the ends inside are not.
pub proof fn lemma_trim_pinned(s: Seq<u8>, a: int, b: int)
    requires
        0 <= a <= b <= s.len(),
        forall|j: int| 0 <= j < a ==> is_ws_byte(s[j]),
        forall|j: int| b <= j < s.len() ==> is_ws_byte(s[j]),
        a < b ==> !is_ws_byte(s[a]) && !is_ws_byte(s[b - 1]),
    ensures
        trim(s) == s.subrange(a, b),
{
    if a == b {
        lemma_trim_start_all_ws(s);
        assert(trim(s) =~= s.subrange(a, b));
    } else {
        lemma_trim_start_skip(s, a);
        let t = s.skip(a);
        assert(forall|j: int| b - a <= j < t.len() ==> is_ws_byte(#[trigger] t[j]));
        assert(!is_ws_byte(t[b - a - 1]));
        lemma_trim_end_take(t, b - a);
        assert(t.take(b - a) =~= s.subrange(a, b));
    }
}

/// A value is trimmed exactly when trimming leaves it unchanged.
pub proof fn lemma_trim_of_trimmed(s: Seq<u8>)
    requires
        trimmed(s),
    ensures
        trim(s) == s,
{
    lemma_trim_pinned(s, 0, s.len() as int);
    assert(s.subrange(0, s.len() as int) =~= s);
}

/// `s` with its leading run of spaces and tabs removed (the unfolding rule for
/// continuation lines).
pub open spec fn strip_cont(s: Seq<u8>) -> Seq<u8>
    decreases s.len(),
{
    if s.len() > 0 && is_cont_byte(s[0]) {
        strip_cont(s.drop_first())
    } else {
        s
    }
}

/// Trimming ignores one leading whitespace byte.
pub proof fn lemma_trim_cons_ws(w: u8, x: Seq<u8>)
    requires
        is_ws_byte(w),
    ensures
        trim(seq![w] + x) == trim(x),
{
    assert((seq![w] + x).drop_first() =~= x);
}

/// Trimming ignores one trailing whitespace byte.
pub proof fn lemma_trim_snoc_ws(x: Seq<u8>, w: u8)
    requires
        is_ws_byte(w),
    ensures
        trim(x + seq![w]) == trim(x),
    decreases x.len(),
{
    let s = x + seq![w];
    if x.len() == 0 {
        assert(s =~= seq![w]);
        assert(s.drop_first() =~= Seq::<u8>::empty());
        assert(trim_start(Seq::<u8>::empty()) =~= Seq::<u8>::empty());
        assert(trim_start(s) =~= Seq::<u8>::empty());
        assert(trim_start(x) =~= x);
        assert(trim_end(trim_start(x)) =~= x);
    } else if is_ws_byte(x[0]) {
        assert(s.drop_first() =~= x.drop_first() + seq![w]);
        lemma_trim_snoc_ws(x.drop_first(), w);
    } else {
        assert(trim_start(s) =~= s);
        assert(trim_start(x) =~= x);
        assert(s.last() == w);
        assert(s.drop_last() =~= x);
    }
}

/// Trimming ignores a whole leading block of whitespace.
pub proof fn lemma_trim_ws_block(p: Seq<u8>, x: Seq<u8>)
    requires
        forall|j: int| 0 <= j < p.len() ==> is_ws_byte(p[j]),
    ensures
        trim(p + x) == trim(x),
    decreases p.len(),
{
    if p.len() == 0 {
        assert(p + x =~= x);
    } else {
        assert(p + x =~= seq![p[0]] + (p.drop_first() + x));
        lemma_trim_cons_ws(p[0], p.drop_first() + x);
        assert(forall|j: int|
            0 <= j < p.drop_first().len() ==> is_ws_byte(#[trigger] p.drop_first()[j]));
        lemma_trim_ws_block(p.drop_first(), x);
    }
}

/// Appending a non-separator byte extends the last piece of the split.
pub proof fn lemma_split_on_snoc(s: Seq<u8>, w: u8, b: u8)
    requires
        w != b,
    ensures
        ({
            let r = split_on(s, b);
            split_on(s + seq![w], b) == r.update(r.len() - 1, r.last() + seq![w])
        }),
    decreases s.len(),
{
    lemma_split_on_len(s, b);
    let r = split_on(s, b);
    let t = s + seq![w];
    if s.len() == 0 {
        assert(t =~= seq![w]);
        assert(t.drop_first() =~= Seq::<u8>::empty());
        assert(split_on(Seq::<u8>::empty(), b) =~~= seq![Seq::<u8>::empty()]);
        assert(split_on(t, b)
            =~~= r.update(r.len() - 1, r.last() + seq![w]));
    } else if s[0] == b {
        assert(t[0] == b);
        assert(t.drop_first() =~= s.drop_first() + seq![w]);
        lemma_split_on_snoc(s.drop_first(), w, b);
        lemma_split_on_len(s.drop_first(), b);
        let r1 = split_on(s.drop_first(), b);
        assert(split_on(t, b) =~~= seq![Seq::<u8>::empty()] + r1.update(
            r1.len() - 1,
            r1.last() + seq![w],
        ));
        assert(split_on(t, b) =~~= r.update(r.len() - 1, r.last() + seq![w]));
    } else {
        assert(t[0] == s[0]);
        assert(t[0] != b);
        assert(t.drop_first() =~= s.drop_first() + seq![w]);
        lemma_split_on_snoc(s.drop_first(), w, b);
        lemma_split_on_len(s.drop_first(), b);
        let r1 = split_on(s.drop_first(), b);
        let r1u = r1.update(r1.len() - 1, r1.last() + seq![w]);
        assert(split_on(t, b) =~~= seq![seq![t[0]] + r1u[0]] + r1u.skip(1));
        if r1.len() == 1 {
            assert(r1u[0] == r1[0] + seq![w]);
            assert(seq![t[0]] + r1u[0] =~= (seq![s[0]] + r1[0]) + seq![w]);
            assert(r1u.skip(1) =~~= r1.skip(1));
            assert(split_on(t, b) =~~= r.update(r.len() - 1, r.last() + seq![w]));
        } else {
            assert(r1u[0] == r1[0]);
            assert(r1u.skip(1) =~~= r1.skip(1).update(r1.skip(1).len() - 1, r1.last() + seq![w]));
            assert(split_on(t, b) =~~= r.update(r.len() - 1, r.last() + seq![w]));
        }
    }
}

/// When `s` does not open with the separator, neither does the first piece,
/// and it keeps the first byte.
pub proof fn lemma_split_on_first(s: Seq<u8>, b: u8)
    requires
        s.len() > 0,
        s[0] != b,
    ensures
        split_on(s, b)[0].len() > 0,
        split_on(s, b)[0][0] == s[0],
{
    lemma_split_on_len(s.drop_first(), b);
}

/// When `s` does not end with the separator, neither does the last piece,
/// and it keeps the last byte.
pub proof fn lemma_split_on_last(s: Seq<u8>, b: u8)
    requires
        s.len() > 0,
        s.last() != b,
    ensures
        split_on(s, b).last().len() > 0,
        split_on(s, b).last().last() == s.last(),
    decreases s.len(),
{
    lemma_split_on_len(s, b);
    let d = s.drop_first();
    if s.len() == 1 {
        assert(s[0] == s.last());
        assert(d =~= Seq::<u8>::empty());
        assert(split_on(d, b) =~~= seq![Seq::<u8>::empty()]);
        let r = split_on(s, b);
        assert(r.len() == 1);
        assert(r[0] =~= seq![s[0]] + Seq::<u8>::empty());
        assert(r[0].last() == s[0]);
    } else {
        assert(d.last() == s.last());
        lemma_split_on_last(d, b);
        let rd = split_on(d, b);
        lemma_split_on_len(d, b);
        let r = split_on(s, b);
        if s[0] == b {
            assert(r.last() == rd.last());
        } else {
            if rd.len() == 1 {
                assert(r.len() == 1);
                assert(r[0] == seq![s[0]] + rd[0]);
                assert(r.last().last() == rd[0].last());
            } else {
                assert(r.last() == rd.skip(1).last());
                assert(rd.skip(1).last() == rd.last());
            }
        }
    }
}

/// The first physical line of a nonempty stream opens with the stream's
/// first byte.
pub proof fn lemma_lines_first_byte(s: Seq<u8>)
    requires
        s.len() > 0,
    ensures
        lines_of(s).len() > 0,
        lines_of(s)[0].len() > 0,
        lines_of(s)[0][0] == s[0],
{
    lemma_lines_of_props(s);
    let l = lines_of(s);
    assert(l.flatten() == s);
    assert(l.flatten() == l.first().add(l.drop_first().flatten()));
    assert(s[0] == l.first()[0]);
}

/// Stripping continuation indentation removes exactly the leading run of
/// spaces and tabs.
pub proof fn lemma_strip_cont_skip(s: Seq<u8>, a: int)
    requires
        0 <= a <= s.len(),
        forall|j: int| 0 <= j < a ==> is_cont_byte(s[j]),
        a < s.len() ==> !is_cont_byte(s[a]),
    ensures
        strip_cont(s) == s.skip(a),
    decreases a,
{
    if a == 0 {
        assert(strip_cont(s) =~= s.skip(0));
    } else {
        let t = s.drop_first();
        assert(forall|j: int| 0 <= j < a - 1 ==> is_cont_byte(#[trigger] t[j]) && t[j] == s[j + 1]);
        lemma_strip_cont_skip(t, a - 1);
        assert(t.skip(a - 1) =~= s.skip(a));
    }
}

/// `s` cut into physical lines: every line but possibly the last ends with a
/// line feed, and the line feeds are kept.
pub open spec fn lines_of(s: Seq<u8>) -> Seq<Seq<u8>>
    decreases s.len(),
{
    if s.len() == 0 {
        seq![]
    } else {
        let r = lines_of(s.drop_last());
        let c = s.last();
        if r.len() == 0 || r.last().last() == 10 {
            r + seq![seq![c]]
        } else {
            r.update(r.len() - 1, r.last() + seq![c])
        }
    }
}

/// Structure of the line split: lines are nonempty, line feeds stand only at
/// line ends, the lines concatenate back to `s`, and the final line ends with
/// a line feed exactly when `s` does.
pub proof fn lemma_lines_of_props(s: Seq<u8>)
    ensures
        forall|i: int| 0 <= i < lines_of(s).len() ==> #[trigger] lines_of(s)[i].len() > 0,
        forall|i: int, j: int|
            0 <= i < lines_of(s).len() && 0 <= j < lines_of(s)[i].len() - 1
                ==> #[trigger] lines_of(s)[i][j] != 10,
        forall|i: int|
            0 <= i < lines_of(s).len() - 1 ==> #[trigger] lines_of(s)[i].last() == 10,
        lines_of(s).flatten() == s,
        s.len() > 0 ==> lines_of(s).len() > 0 && (lines_of(s).last().last() == 10 <==> s.last() == 10),
        s.len() == 0 ==> lines_of(s).len() == 0,
    decreases s.len(),
{
    if s.len() == 0 {
        assert(lines_of(s).flatten() =~= s);
    } else {
        let p = s.drop_last();
        lemma_lines_of_props(p);
        let r = lines_of(p);
        let c = s.last();
        if r.len() == 0 || r.last().last() == 10 {
            let l = lines_of(s);
            assert(l =~= r + seq![seq![c]]);
            vstd::seq_lib::lemma_flatten_concat(r, seq![seq![c]]);
            seq![seq![c]].lemma_flatten_one_element();
            assert(l.flatten() =~= s);
            assert forall|i: int, j: int|
                0 <= i < l.len() && 0 <= j < l[i].len() - 1 implies #[trigger] l[i][j] != 10 by {
                if i < r.len() {
                    assert(l[i] == r[i]);
                }
            }
            assert forall|i: int| 0 <= i < l.len() - 1 implies #[trigger] l[i].last() == 10 by {
                if i < r.len() - 1 {
                    assert(l[i] == r[i]);
                } else {
                    assert(l[i] == r.last());
                }
            }
        } else {
            let l = lines_of(s);
            let k = r.len() - 1;
            assert(l =~= r.update(k, r.last() + seq![c]));
            assert(r =~= r.take(k).push(r.last()));
            assert(l =~= r.take(k).push(r.last() + seq![c]));
            vstd::seq_lib::lemma_flatten_concat(r.take(k), seq![r.last()]);
            assert(r.take(k).push(r.last()) =~= r.take(k) + seq![r.last()]);
            seq![r.last()].lemma_flatten_one_element();
            assert(r.flatten() == r.take(k).flatten() + r.last());
            vstd::seq_lib::lemma_flatten_concat(r.take(k), seq![r.last() + seq![c]]);
            assert(r.take(k).push(r.last() + seq![c]) =~= r.take(k) + seq![r.last() + seq![c]]);
            seq![r.last() + seq![c]].lemma_flatten_one_element();
            assert(l.flatten() == r.take(k).flatten() + (r.last() + seq![c]));
            assert(p + seq![c] =~= s);
            assert((r.take(k).flatten() + r.last()) + seq![c]
                =~= r.take(k).flatten() + (r.last() + seq![c]));
            assert(l.flatten() =~= s);
            assert forall|i: int, j: int|
                0 <= i < l.len() && 0 <= j < l[i].len() - 1 implies #[trigger] l[i][j] != 10 by {
                if i < k {
                    assert(l[i] == r[i]);
                } else {
                    assert(l[i] == r.last() + seq![c]);
                    if j < r.last().len() - 1 {
                        assert(l[i][j] == r.last()[j]);
                    } else if j == r.last().len() - 1 {
                        assert(l[i][j] == r.last().last());
                    }
                }
            }
            assert forall|i: int| 0 <= i < l.len() - 1 implies #[trigger] l[i].last() == 10 by {
                assert(l[i] == r[i]);
            }
        }
    }
}

/// When `a` ends at a line boundary, the line split distributes over
/// concatenation.
pub proof fn lemma_lines_of_append(a: Seq<u8>, b: Seq<u8>)
    requires
        a.len() == 0 || a.last() == 10,
    ensures
        lines_of(a + b) == lines_of(a) + lines_of(b),
    decreases b.len(),
{
    if b.len() == 0 {
        assert(a + b =~= a);
        assert(lines_of(a + b) =~~= lines_of(a) + lines_of(b));
    } else {
        lemma_lines_of_append(a, b.drop_last());
        lemma_lines_of_props(a);
        lemma_lines_of_props(b.drop_last());
        let s = a + b;
        assert(s.drop_last() =~= a + b.drop_last());
        assert(s.last() == b.last());
        let r = lines_of(a) + lines_of(b.drop_last());
        let c = b.last();
        if b.drop_last().len() == 0 {
            if a.len() == 0 {
                assert(r.len() == 0);
                assert(lines_of(s) =~~= lines_of(a) + lines_of(b));
            } else {
                assert(r =~~= lines_of(a));
                assert(r.last().last() == 10);
                assert(lines_of(s) =~~= r + seq![seq![c]]);
                assert(lines_of(b) =~~= seq![seq![c]]);
            }
        } else {
            assert(r.last() == lines_of(b.drop_last()).last());
            if r.last().last() == 10 {
                assert(lines_of(s) =~~= r + seq![seq![c]]);
                assert(lines_of(b) =~~= lines_of(b.drop_last()) + seq![seq![c]]);
                assert(lines_of(s) =~~= lines_of(a) + lines_of(b));
            } else {
                let rb = lines_of(b.drop_last());
                assert(lines_of(s) =~~= r.update(r.len() - 1, r.last() + seq![c]));
                assert(lines_of(b) =~~= rb.update(rb.len() - 1, rb.last() + seq![c]));
                assert(lines_of(s) =~~= lines_of(a) + lines_of(b));
            }
        }
    }
}

/// A line-feed-free chunk followed by a line feed is one whole line.
pub proof fn lemma_lines_of_single(x: Seq<u8>)
    requires
        forall|j: int| 0 <= j < x.len() ==> x[j] != 10,
    ensures
        lines_of(x + seq![10u8]) == seq![x + seq![10u8]],
        x.len() > 0 ==> lines_of(x) == seq![x],
    decreases x.len(),
{
    if x.len() == 0 {
        assert(x + seq![10u8] =~= seq![10u8]);
        let s = seq![10u8];
        assert(s.drop_last() =~= Seq::<u8>::empty());
        assert(lines_of(s.drop_last()) =~~= Seq::<Seq<u8>>::empty());
        assert(lines_of(s) =~~= seq![seq![10u8]]);
    } else {
        let p = x.drop_last();
        assert(forall|j: int| 0 <= j < p.len() ==> #[trigger] p[j] == x[j] && p[j] != 10);
        lemma_lines_of_single(p);
        // lines_of(x): last byte of x is not a line feed
        if p.len() == 0 {
            assert(lines_of(p) =~~= Seq::<Seq<u8>>::empty());
            assert(x =~= seq![x.last()]);
            assert(lines_of(x) =~~= seq![x]);
        } else {
            assert(lines_of(p) == seq![p]);
            assert(lines_of(x) =~~= seq![p + seq![x.last()]]);
            assert(p + seq![x.last()] =~= x);
        }
        // lines_of(x + [10]) extends the single line of x
        let s = x + seq![10u8];
        assert(s.drop_last() =~= x);
        assert(lines_of(x) == seq![x]);
        assert(x.last() != 10);
        assert(lines_of(s) =~~= seq![x + seq![10u8]]);
    }
}

/// The pieces of `split_on` joined back with the separator.
pub open spec fn join_on(pieces: Seq<Seq<u8>>, b: u8) -> Seq<u8>
    decreases pieces.len(),
{
    if pieces.len() == 0 {
        seq![]
    } else if pieces.len() == 1 {
        pieces[0]
    } else {
        pieces[0] + seq![b] + join_on(pieces.drop_first(), b)
    }
}

/// Joining undoes splitting.
pub proof fn lemma_join_split(s: Seq<u8>, b: u8)
    ensures
        join_on(split_on(s, b), b) == s,
    decreases s.len(),
{
    lemma_split_on_len(s, b);
    if s.len() == 0 {
        assert(join_on(split_on(s, b), b) =~= s);
    } else if s[0] == b {
        lemma_join_split(s.drop_first(), b);
        lemma_split_on_len(s.drop_first(), b);
        let p = split_on(s, b);
        assert(p.drop_first() =~= split_on(s.drop_first(), b));
        assert(join_on(p, b) =~= s);
    } else {
        lemma_join_split(s.drop_first(), b);
        let r = split_on(s.drop_first(), b);
        lemma_split_on_len(s.drop_first(), b);
        let p = split_on(s, b);
        if r.len() == 1 {
            assert(p.len() == 1);
            assert(p[0] =~= seq![s[0]] + r[0]);
            assert(join_on(p, b) =~= s);
        } else {
            assert(p.drop_first() =~= r.drop_first());
            assert(join_on(r, b) == r[0] + seq![b] + join_on(r.drop_first(), b));
            assert(join_on(p, b) =~= seq![s[0]] + join_on(r, b));
            assert(seq![s[0]] + join_on(r, b) =~= s);
        }
    }
}

/// The views of a sequence of byte vectors.
pub open spec fn seq_views(v: Seq<Vec<u8>>) -> Seq<Seq<u8>> {
    v.map_values(|x: Vec<u8>| x@)
}

/// Whether `b` is ASCII whitespace, as `is_ws_byte` says.
pub fn is_ws(b: u8) -> (r: bool)
    ensures
        r == is_ws_byte(b),
{
    b == 9 || b == 10 || b == 11 || b == 12 || b == 13 || b == 32
}

/// Whether `b` opens a continuation line, as `is_cont_byte` says.
pub fn is_cont(b: u8) -> (r: bool)
    ensures
        r == is_cont_byte(b),
{
    b == 32 || b == 9
}

/// Appends every byte of `s` to `out`.
pub fn append_bytes(out: &mut Vec<u8>, s: &Vec<u8>)
    ensures
        final(out)@ == old(out)@ + s@,
{
    let mut i: usize = 0;
    while i < s.len()
        invariant
            i <= s.len(),
            out@ == old(out)@ + s@.take(i as int),
        decreases s.len() - i,
    {
        out.push(s[i]);
        proof {
            assert(s@.take(i as int + 1) =~= s@.take(i as int) + seq![s@[i as int]]);
        }
        i = i + 1;
    }
    proof {
        assert(s@.take(s@.len() as int) =~= s@);
    }
}

/// A copy of the bytes of `s` in the range `[a, b)`.
pub fn copy_range(s: &Vec<u8>, a: usize, b: usize) -> (r: Vec<u8>)
    requires
        a <= b <= s@.len(),
    ensures
        r@ == s@.subrange(a as int, b as int),
{
    let mut r: Vec<u8> = Vec::new();
    let mut i: usize = a;
    while i < b
        invariant
            a <= i <= b <= s@.len(),
            r@ == s@.subrange(a as int, i as int),
        decreases b - i,
    {
        r.push(s[i]);
        proof {
            assert(s@.subrange(a as int, i as int + 1)
                =~= s@.subrange(a as int, i as int) + seq![s@[i as int]]);
        }
        i = i + 1;
    }
    r
}

/// The index of the first occurrence of `b` in `s`, as `find_byte` says.
pub fn find_byte_in(s: &Vec<u8>, b: u8) -> (r: Option<usize>)
    ensures
        match r {
            Some(i) => find_byte(s@, b) == Some(i as int),
            None => find_byte(s@, b) is None,
        },
{
    let mut i: usize = 0;
    while i < s.len()
        invariant
            i <= s@.len(),
            forall|j: int| 0 <= j < i ==> s@[j] != b,
        decreases s@.len() - i,
    {
        if s[i] == b {
            proof {
                lemma_find_byte_is(s@, b, i as int);
            }
            return Some(i);
        }
        i = i + 1;
    }
    proof {
        lemma_find_byte(s@, b);
    }
    None
}

/// `s` split at every occurrence of `b`, as `split_on` says.
pub fn split_bytes(s: &Vec<u8>, b: u8) -> (r: Vec<Vec<u8>>)
    ensures
        seq_views(r@) == split_on(s@, b),
{
    let ghost whole: Seq<Seq<u8>> = split_on(s@, b);
    let mut r: Vec<Vec<u8>> = Vec::new();
    let mut start: usize = 0;
    let mut i: usize = 0;
    proof {
        assert(s@.skip(0) =~= s@);
    }
    while i < s.len()
        invariant
            start <= i <= s@.len(),
            forall|j: int| start <= j < i ==> s@[j] != b,
            whole == split_on(s@, b),
            whole =~~= seq_views(r@) + split_on(s@.skip(start as int), b),
        decreases s@.len() - i,
    {
        if s[i] == b {
            let piece = copy_range(s, start, i);
            proof {
                assert(s@.skip(start as int)
                    =~= s@.subrange(start as int, i as int) + seq![b] + s@.skip(i as int + 1));
                lemma_split_on_append(
                    s@.subrange(start as int, i as int),
                    s@.skip(i as int + 1),
                    b,
                );
            }
            r.push(piece);
            proof {
                assert(whole =~~= seq_views(r@) + split_on(s@.skip(i as int + 1), b));
            }
            start = i + 1;
        }
        i = i + 1;
    }
    let piece = copy_range(s, start, s.len());
    proof {
        lemma_split_on_no_sep(s@.skip(start as int), b);
        assert(s@.subrange(start as int, s@.len() as int) =~= s@.skip(start as int));
    }
    r.push(piece);
    proof {
        assert(seq_views(r@) =~~= whole);
    }
    r
}

/// A trimmed copy of `s`, as `trim` says.
pub fn trim_bytes(s: &Vec<u8>) -> (r: Vec<u8>)
    ensures
        r@ == trim(s@),
{
    let mut a: usize = 0;
    while a < s.len() && is_ws(s[a])
        invariant
            a <= s@.len(),
            forall|j: int| 0 <= j < a ==> is_ws_byte(s@[j]),
        decreases s@.len() - a,
    {
        a = a + 1;
    }
    if a == s.len() {
        proof {
            lemma_trim_pinned(s@, a as int, a as int);
        }
        let r = copy_range(s, a, a);
        return r;
    }
    let mut b: usize = s.len();
    while b > a && is_ws(s[b - 1])
        invariant
            a <= b <= s@.len(),
            forall|j: int| b <= j < s@.len() ==> is_ws_byte(s@[j]),
        decreases b,
    {
        b = b - 1;
    }
    proof {
        // the byte at `a` is not whitespace, so the scan from the right
        // stopped at or after it
        assert(!is_ws_byte(s@[a as int]));
        assert(b > a);
        lemma_trim_pinned(s@, a as int, b as int);
    }
    copy_range(s, a, b)
}

} // verus!