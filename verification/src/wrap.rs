//! Word wrapping for long value lines: a greedy wrap on Unicode word
//! boundaries, measuring width in grapheme clusters, with one column reserved
//! for the continuation indent.  The Unicode segmentation itself comes from
//! the `unicode-segmentation` crate through two trusted wrappers; everything
//! around it is verified.

use vstd::prelude::*;
use unicode_segmentation::UnicodeSegmentation;
use crate::text::{is_ws_byte, is_ws, seq_views, append_bytes};

verus! {

/// The segments that Unicode word segmentation cuts a byte string into.  The
/// result is a function of the bytes alone.
pub uninterp spec fn word_bounds_of(s: Seq<u8>) -> Seq<Seq<u8>>;

/// How many extended grapheme clusters a byte string holds.  The result is a
/// function of the bytes alone.
pub uninterp spec fn grapheme_len_of(s: Seq<u8>) -> nat;

/// Relies on unicode_segmentation's `split_word_bounds`: the concatenation of
/// the returned segments is the original string.  Bytes that are not valid
/// UTF-8 stay a single segment.
#[verifier::external_body]
fn split_word_bounds(line: &Vec<u8>) -> (r: Vec<Vec<u8>>)
    ensures
        seq_views(r@) == word_bounds_of(line@),
        seq_views(r@).flatten() == line@,
{
    match core::str::from_utf8(line.as_slice()) {
        Ok(s) => s.split_word_bounds().map(|w| w.as_bytes().to_vec()).collect(),
        Err(_) => vec![line.clone()],
    }
}

/// Relies on unicode_segmentation's `graphemes`: it counts extended grapheme
/// clusters, each at least one byte, at least one for a nonempty string.
/// Bytes that are not valid UTF-8 count one per byte.
#[verifier::external_body]
pub(crate) fn grapheme_count(s: &Vec<u8>) -> (r: usize)
    ensures
        r as nat == grapheme_len_of(s@),
        r <= s@.len(),
        r == 0 <==> s@.len() == 0,
{
    match core::str::from_utf8(s.as_slice()) {
        Ok(t) => t.graphemes(true).count(),
        Err(_) => s.len(),
    }
}

/// Whether every byte of `w` is whitespace (an empty `w` counts).
pub open spec fn all_ws(w: Seq<u8>) -> bool {
    forall|j: int| 0 <= j < w.len() ==> is_ws_byte(w[j])
}

/// Column widths above the wrap limit all behave alike, so they are capped.
pub open spec fn cap_width(n: nat) -> nat {
    if n > 81 {
        81
    } else {
        n
    }
}

/// The wrapped output from word `i` on, with `written` columns already spent
/// on the current physical line: break before a word that would pass column
/// 80, never split a word, and drop a pure-whitespace word that would open a
/// line.
pub open spec fn wrap_step(words: Seq<Seq<u8>>, i: int, written: nat) -> Seq<u8>
    decreases words.len() - i,
{
    if i >= words.len() {
        seq![]
    } else {
        let w = words[i];
        let wl = grapheme_len_of(w);
        let wrapped = written + wl > 80;
        let base: nat = if wrapped {
            1
        } else {
            written
        };
        let pre: Seq<u8> = if wrapped {
            seq![10u8, 32u8]
        } else {
            seq![]
        };
        if all_ws(w) && base == 1 {
            pre + wrap_step(words, i + 1, base)
        } else {
            pre + w + wrap_step(words, i + 1, cap_width(base + wl))
        }
    }
}

/// A line wrapped from a fresh continuation line, whose one-space indent has
/// already spent the first column.
pub open spec fn wrap_line(line: Seq<u8>) -> Seq<u8> {
    wrap_step(word_bounds_of(line), 0, 1)
}

/// Whether every byte of `w` is whitespace, as `all_ws` says.
fn all_ws_in(w: &Vec<u8>) -> (r: bool)
    ensures
        r == all_ws(w@),
{
    let mut i: usize = 0;
    while i < w.len()
        invariant
            i <= w@.len(),
            forall|j: int| 0 <= j < i ==> is_ws_byte(w@[j]),
        decreases w@.len() - i,
    {
        if !is_ws(w[i]) {
            return false;
        }
        i = i + 1;
    }
    true
}

/// Appends `line` to `out`, wrapped on word boundaries as `wrap_line` says.
pub fn write_wraped(out: &mut Vec<u8>, line: &Vec<u8>)
    ensures
        final(out)@ == old(out)@ + wrap_line(line@),
{
    let words = split_word_bounds(line);
    let ghost wv = word_bounds_of(line@);
    let mut written: usize = 1;
    let mut i: usize = 0;
    proof {
        assert(out@ + wrap_step(wv, 0, 1) =~= old(out)@ + wrap_line(line@));
    }
    while i < words.len()
        invariant
            i <= words@.len(),
            seq_views(words@) == wv,
            1 <= written <= 81,
            out@ + wrap_step(wv, i as int, written as nat) == old(out)@ + wrap_line(line@),
        decreases words@.len() - i,
    {
        let ghost out_pre = out@;
        let ghost w0 = written as nat;
        let w = &words[i];
        proof {
            assert(w@ == wv[i as int]);
        }
        let wl = grapheme_count(w);
        let wrapped = written > 80 || wl > 80 - written;
        proof {
            assert(wrapped == (w0 + grapheme_len_of(w@) > 80));
        }
        if wrapped {
            out.push(10);
            out.push(32);
            written = 1;
        }
        let ghost base = written as nat;
        let skip_word = all_ws_in(w) && written == 1;
        if !skip_word {
            append_bytes(out, w);
            written = if wl >= 81 - written {
                81
            } else {
                written + wl
            };
        }
        proof {
            if !skip_word {
                assert(written as nat == cap_width((base + grapheme_len_of(w@)) as nat));
            }
            assert(out@ + wrap_step(wv, i as int + 1, written as nat)
                =~= out_pre + wrap_step(wv, i as int, w0));
        }
        i = i + 1;
    }
    proof {
        assert(out@ + wrap_step(wv, i as int, written as nat) =~= out@);
    }
}

} // verus!
