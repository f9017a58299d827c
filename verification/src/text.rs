//! UTF-8 boundary scanning and lossy decoding.
//!
//! Terminal output arrives in byte chunks that may split a multi-byte UTF-8
//! character across two reads.  This module specifies and implements the two
//! operations the output streamer needs:
//!
//! * [`find_utf8_boundary`] — the longest prefix of a byte buffer that does
//!   not end in the middle of a (possibly incomplete) multi-byte sequence;
//! * [`lossy_decode`] — the character sequence obtained by decoding a byte
//!   sequence as UTF-8, substituting one replacement character for each
//!   maximal invalid subpart, exactly as a standard lossy decoder does.
//!
//! The central theorem, [`lemma_boundary_split`], states that cutting a
//! buffer at the scanned boundary never changes the decoded output: the
//! lossy decoding of the whole stream equals the decoding of the emitted
//! prefix followed by the decoding of the retained suffix joined with
//! whatever bytes arrive later.

use vstd::prelude::*;
use vstd::utf8::*;

verus! {

/// Number of bytes the scan expects for a sequence whose leading byte is
/// `b` (only meaningful for `b >= 0xC0`): 2, 3 or 4, read off the high bits.
pub open spec fn lead_width(b: u8) -> int {
    if b >= 0xF0 {
        4
    } else if b >= 0xE0 {
        3
    } else {
        2
    }
}

/// Backward scan for the last UTF-8 boundary, examining positions
/// `i, i-1, ...`: an ASCII byte is a boundary right after itself; a leading
/// byte is a boundary after its full sequence when enough bytes follow it,
/// and a boundary right before itself otherwise; continuation bytes are
/// stepped over.
pub open spec fn scan_back(s: Seq<u8>, i: int) -> int
    recommends
        -1 <= i < s.len(),
    decreases i + 1,
{
    if i < 0 {
        0
    } else if s[i] < 0x80 {
        i + 1
    } else if s[i] >= 0xC0 {
        if i + lead_width(s[i]) <= s.len() {
            i + lead_width(s[i])
        } else {
            i
        }
    } else {
        scan_back(s, i - 1)
    }
}

/// The last UTF-8 boundary of `s`: no character begun before it continues
/// past it, and the bytes after it form at most one incomplete trailing
/// sequence, held back for the next read.  [`lemma_boundary_split`] makes
/// this precise: cutting at this position never changes the decoded
/// output.
pub open spec fn boundary_of(s: Seq<u8>) -> int {
    scan_back(s, s.len() - 1)
}

proof fn lemma_scan_back_bounds(s: Seq<u8>, i: int)
    requires
        -1 <= i < s.len(),
    ensures
        0 <= scan_back(s, i) <= s.len(),
    decreases i + 1,
{
    if i < 0 {
    } else if s[i] < 0x80 {
    } else if s[i] >= 0xC0 {
    } else {
        lemma_scan_back_bounds(s, i - 1);
    }
}

/// The scanned boundary always lies within the buffer.
pub proof fn lemma_boundary_bounds(s: Seq<u8>)
    ensures
        0 <= boundary_of(s) <= s.len(),
{
    if s.len() == 0 {
    } else {
        lemma_scan_back_bounds(s, s.len() - 1);
    }
}

/// True when `b` is acceptable as the second byte of a sequence led by
/// `lead`.  The ranges are the restricted ones of the UTF-8 definition, so
/// overlong encodings and surrogates are rejected at the second byte.
pub open spec fn second_byte_ok(lead: u8, b: u8) -> bool {
    if lead == 0xE0 {
        0xA0 <= b <= 0xBF
    } else if lead == 0xED {
        0x80 <= b <= 0x9F
    } else if lead == 0xF0 {
        0x90 <= b <= 0xBF
    } else if lead == 0xF4 {
        0x80 <= b <= 0x8F
    } else {
        0x80 <= b <= 0xBF
    }
}

/// Length of the first decoding unit of `s`: the bytes a lossy decoder
/// consumes in one step, either a complete well-formed character or a
/// maximal invalid subpart (at least one byte).
pub open spec fn unit_len(s: Seq<u8>) -> int
    recommends
        s.len() > 0,
{
    let b0 = s[0];
    if b0 < 0x80 {
        1
    } else if b0 < 0xC2 {
        1
    } else if b0 < 0xE0 {
        if s.len() >= 2 && is_continuation_byte(s[1]) {
            2
        } else {
            1
        }
    } else if b0 < 0xF0 {
        if s.len() >= 2 && second_byte_ok(b0, s[1]) {
            if s.len() >= 3 && is_continuation_byte(s[2]) {
                3
            } else {
                2
            }
        } else {
            1
        }
    } else if b0 < 0xF5 {
        if s.len() >= 2 && second_byte_ok(b0, s[1]) {
            if s.len() >= 3 && is_continuation_byte(s[2]) {
                if s.len() >= 4 && is_continuation_byte(s[3]) {
                    4
                } else {
                    3
                }
            } else {
                2
            }
        } else {
            1
        }
    } else {
        1
    }
}

/// True when the first decoding unit of `s` is a complete well-formed
/// character (as opposed to an invalid subpart that decodes to the
/// replacement character).
pub open spec fn unit_ok(s: Seq<u8>) -> bool {
    s.len() > 0 && {
        let b0 = s[0];
        if b0 < 0x80 {
            true
        } else if b0 < 0xC2 {
            false
        } else if b0 < 0xE0 {
            unit_len(s) == 2
        } else if b0 < 0xF0 {
            unit_len(s) == 3
        } else if b0 < 0xF5 {
            unit_len(s) == 4
        } else {
            false
        }
    }
}

/// The character produced for the first decoding unit of `s`: the decoded
/// character when the unit is well formed, the replacement character
/// otherwise.
pub open spec fn unit_char(s: Seq<u8>) -> char {
    if unit_ok(s) {
        decode_first_codepoint(s) as char
    } else {
        '\u{fffd}'
    }
}

pub proof fn lemma_unit_len_bounds(s: Seq<u8>)
    requires
        s.len() > 0,
    ensures
        1 <= unit_len(s) <= s.len(),
        unit_len(s) <= 4,
{
}

/// The character sequence a lossy UTF-8 decoder produces for `s`: each
/// well-formed character decodes to itself, and each maximal invalid
/// subpart decodes to one replacement character.
pub open spec fn lossy_decode(s: Seq<u8>) -> Seq<char>
    decreases s.len(),
{
    if s.len() == 0 {
        Seq::empty()
    } else {
        seq![unit_char(s)] + lossy_decode(s.skip(unit_len(s)))
    }
}

/// True when the first decoding unit of `s` reaches the end of `s` while
/// still forming a valid, extendable prefix of a longer character: the one
/// situation in which bytes arriving later could change how the unit
/// decodes.
pub open spec fn unit_hungry(s: Seq<u8>) -> bool {
    s.len() > 0 && {
        let b0 = s[0];
        ||| (0xC2 <= b0 <= 0xDF && s.len() == 1)
        ||| (0xE0 <= b0 <= 0xEF && (s.len() == 1 || (s.len() == 2 && second_byte_ok(b0, s[1]))))
        ||| (0xF0 <= b0 <= 0xF4 && (s.len() == 1 || (s.len() == 2 && second_byte_ok(b0, s[1]))
            || (s.len() == 3 && second_byte_ok(b0, s[1]) && is_continuation_byte(s[2]))))
    }
}

/// Appending bytes cannot change the first decoding unit, unless that unit
/// was a hungry trailing prefix and the first appended byte is a
/// continuation byte that could extend it.
proof fn lemma_unit_stable(s: Seq<u8>, t: Seq<u8>)
    requires
        s.len() > 0,
        !unit_hungry(s) || (t.len() > 0 && !is_continuation_byte(t[0])),
    ensures
        unit_len(s + t) == unit_len(s),
        unit_ok(s + t) == unit_ok(s),
        unit_char(s + t) == unit_char(s),
{
    let u = s + t;
    assert(u.len() == s.len() + t.len());
    assert(forall|i: int| 0 <= i < s.len() ==> u[i] == s[i]);
    assert(forall|j: int| 0 <= j < t.len() ==> u[s.len() + j] == t[j]);
    if s.len() >= 4 {
    } else {
        if t.len() > 0 {
            assert(u[s.len() as int] == t[0]);
        }
    }
}

/// `s` decomposes completely into decoding units, none of which is a
/// hungry trailing prefix; appending anything to such a sequence decodes
/// it unchanged.
pub open spec fn sealed(s: Seq<u8>) -> bool
    decreases s.len(),
{
    s.len() == 0 || (!unit_hungry(s) && sealed(s.skip(unit_len(s))))
}

/// Lossy decoding distributes over concatenation when the left part is
/// sealed.
proof fn lemma_sealed_split(u: Seq<u8>, v: Seq<u8>)
    requires
        sealed(u),
    ensures
        lossy_decode(u + v) == lossy_decode(u) + lossy_decode(v),
    decreases u.len(),
{
    if u.len() == 0 {
        assert(u + v =~= v);
        assert(lossy_decode(u) + lossy_decode(v) =~= lossy_decode(v));
    } else {
        lemma_unit_len_bounds(u);
        lemma_unit_stable(u, v);
        let l = unit_len(u);
        assert((u + v).skip(l) =~= u.skip(l) + v);
        lemma_sealed_split(u.skip(l), v);
        assert(lossy_decode(u + v) =~= lossy_decode(u) + lossy_decode(v));
    }
}

/// Lossy decoding distributes over concatenation when the right part does
/// not begin with a continuation byte, whatever the left part is: a
/// non-continuation byte ends any pending unit exactly as the end of input
/// does.
proof fn lemma_noncont_split(u: Seq<u8>, v: Seq<u8>)
    requires
        v.len() == 0 || !is_continuation_byte(v[0]),
    ensures
        lossy_decode(u + v) == lossy_decode(u) + lossy_decode(v),
    decreases u.len(),
{
    if v.len() == 0 {
        assert(u + v =~= u);
        assert(lossy_decode(u) + lossy_decode(v) =~= lossy_decode(u));
    } else if u.len() == 0 {
        assert(u + v =~= v);
        assert(lossy_decode(u) + lossy_decode(v) =~= lossy_decode(v));
    } else {
        lemma_unit_len_bounds(u);
        lemma_unit_stable(u, v);
        let l = unit_len(u);
        assert((u + v).skip(l) =~= u.skip(l) + v);
        lemma_noncont_split(u.skip(l), v);
        assert(lossy_decode(u + v) =~= lossy_decode(u) + lossy_decode(v));
    }
}

/// A well-formed unit is exactly a valid scalar encoding: the decoded
/// codepoint is a Unicode scalar, and re-encoding it reproduces the unit's
/// bytes.
proof fn lemma_unit_ok_props(s: Seq<u8>)
    requires
        s.len() > 0,
        unit_ok(s),
    ensures
        is_scalar(decode_first_codepoint(s)),
        encode_scalar(decode_first_codepoint(s)) == s.subrange(0, unit_len(s)),
{
    let b0 = s[0];
    if b0 < 0x80 {
        assert(s.subrange(0, 1) =~= seq![b0]);
        let cp = codepoint_width_1(b0);
        assert(has_width_1_encoding(cp) && leading_byte_width_1(cp) == b0) by (bit_vector)
            requires
                cp == (b0 & 0x7F) as u32,
                b0 < 0x80,
        ;
        assert(encode_scalar(cp) =~= seq![b0]);
    } else if b0 < 0xE0 {
        let b1 = s[1];
        assert(s.subrange(0, 2) =~= seq![b0, b1]);
        let cp = codepoint_width_2(b0, b1);
        assert(has_width_2_encoding(cp) && leading_byte_width_2(cp) == b0
            && last_continuation_byte(cp) == b1) by (bit_vector)
            requires
                cp == ((((b0 & 0x1F) as u32) << 6) | ((b1 & 0x3F) as u32)),
                0xC2 <= b0 <= 0xDF,
                0x80 <= b1 <= 0xBF,
        ;
        assert(encode_scalar(cp) =~= seq![b0, b1]);
    } else if b0 < 0xF0 {
        let b1 = s[1];
        let b2 = s[2];
        assert(s.subrange(0, 3) =~= seq![b0, b1, b2]);
        let cp = codepoint_width_3(b0, b1, b2);
        assert(has_width_3_encoding(cp) && leading_byte_width_3(cp) == b0
            && second_last_continuation_byte(cp) == b1 && last_continuation_byte(cp) == b2)
            by (bit_vector)
            requires
                cp == ((((b0 & 0x0F) as u32) << 12) | (((b1 & 0x3F) as u32) << 6) | ((b2
                    & 0x3F) as u32)),
                0xE0 <= b0 <= 0xEF,
                0x80 <= b1 <= 0xBF,
                b0 == 0xE0 ==> b1 >= 0xA0,
                b0 == 0xED ==> b1 <= 0x9F,
                0x80 <= b2 <= 0xBF,
        ;
        assert(encode_scalar(cp) =~= seq![b0, b1, b2]);
    } else {
        let b1 = s[1];
        let b2 = s[2];
        let b3 = s[3];
        assert(s.subrange(0, 4) =~= seq![b0, b1, b2, b3]);
        let cp = codepoint_width_4(b0, b1, b2, b3);
        assert(has_width_4_encoding(cp) && leading_byte_width_4(cp) == b0
            && third_last_continuation_byte(cp) == b1 && second_last_continuation_byte(cp) == b2
            && last_continuation_byte(cp) == b3) by (bit_vector)
            requires
                cp == ((((b0 & 0x07) as u32) << 18) | (((b1 & 0x3F) as u32) << 12) | (((b2
                    & 0x3F) as u32) << 6) | ((b3 & 0x3F) as u32)),
                0xF0 <= b0 <= 0xF4,
                0x80 <= b1 <= 0xBF,
                b0 == 0xF0 ==> b1 >= 0x90,
                b0 == 0xF4 ==> b1 <= 0x8F,
                0x80 <= b2 <= 0xBF,
                0x80 <= b3 <= 0xBF,
        ;
        assert(encode_scalar(cp) =~= seq![b0, b1, b2, b3]);
    }
}

/// UTF-8 encoding distributes over concatenation of character sequences.
pub proof fn lemma_encode_append(c1: Seq<char>, c2: Seq<char>)
    ensures
        encode_utf8(c1 + c2) == encode_utf8(c1) + encode_utf8(c2),
    decreases c1.len(),
{
    if c1.len() == 0 {
        assert(c1 + c2 =~= c2);
        assert(encode_utf8(c1) + encode_utf8(c2) =~= encode_utf8(c2));
    } else {
        assert((c1 + c2)[0] == c1[0]);
        assert((c1 + c2).drop_first() =~= c1.drop_first() + c2);
        lemma_encode_append(c1.drop_first(), c2);
        assert(encode_utf8(c1 + c2) =~= encode_utf8(c1) + encode_utf8(c2));
    }
}

fn is_cont_byte(b: u8) -> (r: bool)
    ensures
        r == is_continuation_byte(b),
{
    b >= 0x80 && b <= 0xBF
}

fn is_second_byte_ok(lead: u8, b: u8) -> (r: bool)
    ensures
        r == second_byte_ok(lead, b),
{
    if lead == 0xE0 {
        b >= 0xA0 && b <= 0xBF
    } else if lead == 0xED {
        b >= 0x80 && b <= 0x9F
    } else if lead == 0xF0 {
        b >= 0x90 && b <= 0xBF
    } else if lead == 0xF4 {
        b >= 0x80 && b <= 0x8F
    } else {
        b >= 0x80 && b <= 0xBF
    }
}

/// Re-encode `bytes[from..to]` as the UTF-8 bytes of its lossy decoding:
/// well-formed characters are copied through, and each maximal invalid
/// subpart becomes one replacement character.
pub fn lossy_reencode(bytes: &[u8], from: usize, to: usize) -> (out: Vec<u8>)
    requires
        from <= to <= bytes@.len(),
    ensures
        out@ == encode_utf8(lossy_decode(bytes@.subrange(from as int, to as int))),
{
    let mut out: Vec<u8> = Vec::new();
    let mut pos: usize = from;
    while pos < to
        invariant
            from <= pos <= to <= bytes@.len(),
            out@ + encode_utf8(lossy_decode(bytes@.subrange(pos as int, to as int)))
                == encode_utf8(lossy_decode(bytes@.subrange(from as int, to as int))),
        decreases to - pos,
    {
        let ghost rest = bytes@.subrange(pos as int, to as int);
        proof {
            assert(forall|j: int| 0 <= j < rest.len() ==> #[trigger] rest[j] == bytes@[pos + j]);
        }
        let b0: u8 = bytes[pos];
        let l: usize;
        let ok: bool;
        if b0 < 0x80 {
            l = 1;
            ok = true;
        } else if b0 < 0xC2 {
            l = 1;
            ok = false;
        } else if b0 < 0xE0 {
            if to - pos >= 2 && is_cont_byte(bytes[pos + 1]) {
                l = 2;
                ok = true;
            } else {
                l = 1;
                ok = false;
            }
        } else if b0 < 0xF0 {
            if to - pos >= 2 && is_second_byte_ok(b0, bytes[pos + 1]) {
                if to - pos >= 3 && is_cont_byte(bytes[pos + 2]) {
                    l = 3;
                    ok = true;
                } else {
                    l = 2;
                    ok = false;
                }
            } else {
                l = 1;
                ok = false;
            }
        } else if b0 < 0xF5 {
            if to - pos >= 2 && is_second_byte_ok(b0, bytes[pos + 1]) {
                if to - pos >= 3 && is_cont_byte(bytes[pos + 2]) {
                    if to - pos >= 4 && is_cont_byte(bytes[pos + 3]) {
                        l = 4;
                        ok = true;
                    } else {
                        l = 3;
                        ok = false;
                    }
                } else {
                    l = 2;
                    ok = false;
                }
            } else {
                l = 1;
                ok = false;
            }
        } else {
            l = 1;
            ok = false;
        }
        proof {
            assert(l as int == unit_len(rest));
            assert(ok == unit_ok(rest));
            lemma_unit_len_bounds(rest);
        }
        let ghost out_before = out@;
        if ok {
            proof {
                lemma_unit_ok_props(rest);
            }
            let mut k: usize = 0;
            while k < l
                invariant
                    k <= l,
                    pos + l <= to <= bytes@.len(),
                    rest == bytes@.subrange(pos as int, to as int),
                    out@ == out_before + rest.subrange(0, k as int),
                decreases l - k,
            {
                out.push(bytes[pos + k]);
                proof {
                    assert(out@ =~= out_before + rest.subrange(0, k + 1));
                }
                k = k + 1;
            }
            proof {
                let cp = decode_first_codepoint(rest);
                assert(is_scalar(cp));
                assert((cp as char) as u32 == cp);
                let c = unit_char(rest);
                assert(c == cp as char);
                assert(seq![c].drop_first() =~= Seq::<char>::empty());
                assert(encode_utf8(seq![c]) =~= encode_scalar(c as u32) + encode_utf8(
                    Seq::<char>::empty(),
                ));
                assert(encode_utf8(seq![c]) =~= encode_scalar(cp));
                assert(out@ == out_before + encode_utf8(seq![c]));
            }
        } else {
            out.push(0xEF);
            out.push(0xBF);
            out.push(0xBD);
            proof {
                let r = '\u{fffd}';
                assert(r as u32 == 0xFFFD);
                assert(has_width_3_encoding(0xFFFDu32));
                assert((0xE0u8 | (((0xFFFDu32 >> 12) & 0x0F) as u8)) == 0xEFu8 && (0x80u8 | (((
                0xFFFDu32 >> 6) & 0x3F) as u8)) == 0xBFu8 && (0x80u8 | ((0xFFFDu32
                    & 0x3F) as u8)) == 0xBDu8) by (bit_vector);
                assert(leading_byte_width_3(0xFFFDu32) == 0xEFu8 && second_last_continuation_byte(
                    0xFFFDu32,
                ) == 0xBFu8 && last_continuation_byte(0xFFFDu32) == 0xBDu8);
                assert(encode_scalar(r as u32) =~= seq![0xEFu8, 0xBFu8, 0xBDu8]);
                let c = unit_char(rest);
                assert(c == r);
                assert(seq![c].drop_first() =~= Seq::<char>::empty());
                assert(encode_utf8(seq![c]) =~= encode_scalar(c as u32) + encode_utf8(
                    Seq::<char>::empty(),
                ));
                assert(encode_utf8(seq![c]) =~= encode_scalar(r as u32));
                assert(out@ =~= out_before + encode_utf8(seq![c]));
            }
        }
        proof {
            assert(lossy_decode(rest) == seq![unit_char(rest)] + lossy_decode(
                rest.skip(l as int),
            ));
            lemma_encode_append(seq![unit_char(rest)], lossy_decode(rest.skip(l as int)));
            assert(bytes@.subrange(pos + l, to as int) =~= rest.skip(l as int));
            assert(out@ + encode_utf8(lossy_decode(bytes@.subrange(pos + l, to as int)))
                =~= encode_utf8(lossy_decode(bytes@.subrange(from as int, to as int))));
        }
        pos = pos + l;
    }
    proof {
        assert(bytes@.subrange(to as int, to as int) =~= Seq::<u8>::empty());
        assert(out@ =~= out@ + encode_utf8(lossy_decode(bytes@.subrange(to as int, to as int))));
    }
    out
}

/// Every byte of `s` is a continuation byte.
pub open spec fn all_continuation(s: Seq<u8>) -> bool {
    forall|j: int| 0 <= j < s.len() ==> is_continuation_byte(#[trigger] s[j])
}

/// `s` ends either with an ASCII byte or with a leading byte followed by
/// exactly the number of continuation bytes its width announces: the two
/// shapes in which the backward scan places a boundary at the very end.
pub open spec fn tail_fit(s: Seq<u8>) -> bool {
    s.len() > 0 && {
        ||| s[s.len() - 1] < 0x80
        ||| exists|i: int|
            0 <= i < s.len() && #[trigger] s[i] >= 0xC0 && i + lead_width(s[i]) == s.len() && (
            forall|j: int| i < j < s.len() ==> is_continuation_byte(#[trigger] s[j]))
    }
}

/// Bytes consumed by a unit after its first are always continuation bytes.
proof fn lemma_unit_interior_cont(s: Seq<u8>)
    requires
        s.len() > 0,
    ensures
        forall|j: int| 1 <= j < unit_len(s) ==> is_continuation_byte(#[trigger] s[j]),
{
}

proof fn lemma_allcont_sealed(s: Seq<u8>)
    requires
        all_continuation(s),
    ensures
        sealed(s),
    decreases s.len(),
{
    if s.len() == 0 {
    } else {
        assert(is_continuation_byte(s[0]));
        assert(unit_len(s) == 1);
        assert(!unit_hungry(s));
        assert(all_continuation(s.skip(1))) by {
            assert(forall|j: int|
                0 <= j < s.skip(1).len() ==> #[trigger] s.skip(1)[j] == s[j + 1]);
        }
        lemma_allcont_sealed(s.skip(1));
    }
}

proof fn lemma_tailfit_sealed(s: Seq<u8>)
    requires
        tail_fit(s) || all_continuation(s) || s.len() == 0,
    ensures
        sealed(s),
    decreases s.len(),
{
    if s.len() == 0 {
    } else if all_continuation(s) {
        lemma_allcont_sealed(s);
    } else {
        // tail_fit holds.  First: the initial unit is not hungry.
        assert(!unit_hungry(s)) by {
            if unit_hungry(s) {
                let b0 = s[0];
                assert(b0 >= 0xC2);
                // a hungry unit means the whole of s is this lead plus its
                // valid continuation bytes, and s is shorter than the width
                // the lead announces
                assert(forall|j: int| 1 <= j < s.len() ==> is_continuation_byte(#[trigger] s[j]));
                assert(s.len() < lead_width(b0));
                // tail_fit's ASCII case is impossible
                assert(!(s[s.len() - 1] < 0x80));
                // tail_fit's witness must be position 0, whose width does
                // not fit: contradiction
                let i = choose|i: int|
                    0 <= i < s.len() && #[trigger] s[i] >= 0xC0 && i + lead_width(s[i]) == s.len()
                        && (forall|j: int| i < j < s.len() ==> is_continuation_byte(
                        #[trigger] s[j],
                    ));
                assert(i == 0);
                assert(false);
            }
        }
        let l = unit_len(s);
        lemma_unit_len_bounds(s);
        let rest = s.skip(l);
        assert(forall|j: int| 0 <= j < rest.len() ==> #[trigger] rest[j] == s[j + l]);
        if l == s.len() {
            lemma_tailfit_sealed(rest);
        } else {
            // establish tail_fit or all_continuation for the remainder
            if s[s.len() - 1] < 0x80 {
                assert(rest[rest.len() - 1] == s[s.len() - 1]);
                assert(tail_fit(rest));
            } else {
                let i = choose|i: int|
                    0 <= i < s.len() && #[trigger] s[i] >= 0xC0 && i + lead_width(s[i]) == s.len()
                        && (forall|j: int| i < j < s.len() ==> is_continuation_byte(
                        #[trigger] s[j],
                    ));
                if i >= l {
                    assert(rest[i - l] == s[i]);
                    assert((i - l) + lead_width(rest[i - l]) == rest.len());
                    assert(forall|j: int|
                        i - l < j < rest.len() ==> is_continuation_byte(#[trigger] rest[j]));
                    assert(tail_fit(rest));
                } else {
                    // the witness lead lies inside the first unit; a unit's
                    // interior bytes are continuations, so the lead is at
                    // position 0 and everything after the unit is a
                    // continuation byte
                    lemma_unit_interior_cont(s);
                    assert(i == 0);
                    assert(all_continuation(rest));
                }
            }
            lemma_tailfit_sealed(rest);
        }
    }
}

/// Structure of the scan result: the prefix it keeps either ends cleanly
/// (ASCII or a fitted lead) or the cut falls immediately before a
/// non-continuation byte.
proof fn lemma_scan_shape(s: Seq<u8>, i: int)
    requires
        -1 <= i < s.len(),
        forall|j: int| i < j < s.len() ==> is_continuation_byte(#[trigger] s[j]),
    ensures
        ({
            let r = scan_back(s, i);
            &&& 0 <= r <= s.len()
            &&& (r == 0 || tail_fit(s.take(r)) || (r < s.len() && !is_continuation_byte(s[r])))
        }),
    decreases i + 1,
{
    lemma_scan_back_bounds(s, i);
    if i < 0 {
    } else if s[i] < 0x80 {
        let r = i + 1;
        assert(s.take(r)[r - 1] == s[i]);
        assert(tail_fit(s.take(r)));
    } else if s[i] >= 0xC0 {
        if i + lead_width(s[i]) <= s.len() {
            let r = i + lead_width(s[i]);
            let u = s.take(r);
            assert(u[i] == s[i]);
            assert(forall|j: int| i < j < u.len() ==> is_continuation_byte(#[trigger] u[j]));
            assert(tail_fit(u));
        } else {
            assert(!is_continuation_byte(s[i]));
        }
    } else {
        lemma_scan_shape(s, i - 1);
    }
}

/// Cutting a byte stream at the scanned boundary never changes its decoded
/// output: the lossy decoding of the whole equals the decoding of the
/// prefix up to the boundary followed by the decoding of the retained
/// suffix joined with any later bytes.
pub proof fn lemma_boundary_split(s: Seq<u8>, t: Seq<u8>)
    ensures
        ({
            let b = boundary_of(s);
            &&& 0 <= b <= s.len()
            &&& lossy_decode(s + t) == lossy_decode(s.take(b)) + lossy_decode(s.skip(b) + t)
        }),
{
    lemma_boundary_bounds(s);
    let b = boundary_of(s);
    let u = s.take(b);
    let v = s.skip(b) + t;
    assert(u + v =~= s + t);
    if s.len() == 0 {
        assert(b == 0);
        assert(u.len() == 0);
        assert(u + v =~= v);
        assert(lossy_decode(u) + lossy_decode(v) =~= lossy_decode(v));
    } else {
        lemma_scan_shape(s, s.len() - 1);
        if b == 0 {
            assert(u.len() == 0);
            assert(u + v =~= v);
            assert(lossy_decode(u) + lossy_decode(v) =~= lossy_decode(v));
        } else if tail_fit(u) {
            lemma_tailfit_sealed(u);
            lemma_sealed_split(u, v);
        } else {
            assert(b < s.len() && !is_continuation_byte(s[b]));
            assert(v[0] == s[b]);
            lemma_noncont_split(u, v);
        }
    }
}

/// On a well-formed scalar encoding, the decoding unit is exactly that
/// scalar.
proof fn lemma_valid_scalar_unit(s: Seq<u8>)
    requires
        s.len() > 0,
        valid_first_scalar(s),
    ensures
        unit_ok(s),
        unit_len(s) == length_of_first_scalar(s),
        unit_char(s) == decode_first_scalar(s) as char,
{
    let b0 = s[0];
    if is_leading_byte_width_1(b0) {
    } else if is_leading_byte_width_2(b0) {
        let b1 = s[1];
        let cp = codepoint_width_2(b0, b1);
        assert(0xC2 <= b0) by (bit_vector)
            requires
                cp == ((((b0 & 0x1F) as u32) << 6) | ((b1 & 0x3F) as u32)),
                0xC0 <= b0 <= 0xDF,
                0x80 <= b1 <= 0xBF,
                0x80 <= cp,
        ;
    } else if is_leading_byte_width_3(b0) {
        let b1 = s[1];
        let b2 = s[2];
        let cp = codepoint_width_3(b0, b1, b2);
        assert((b0 == 0xE0 ==> b1 >= 0xA0) && (b0 == 0xED ==> b1 <= 0x9F)) by (bit_vector)
            requires
                cp == ((((b0 & 0x0F) as u32) << 12) | (((b1 & 0x3F) as u32) << 6) | ((b2
                    & 0x3F) as u32)),
                0xE0 <= b0 <= 0xEF,
                0x80 <= b1 <= 0xBF,
                0x80 <= b2 <= 0xBF,
                0x800 <= cp,
                !(0xD800 <= cp <= 0xDFFF),
        ;
        assert(second_byte_ok(b0, b1));
    } else {
        let b1 = s[1];
        let b2 = s[2];
        let b3 = s[3];
        let cp = codepoint_width_4(b0, b1, b2, b3);
        assert(b0 <= 0xF4 && (b0 == 0xF0 ==> b1 >= 0x90) && (b0 == 0xF4 ==> b1 <= 0x8F))
            by (bit_vector)
            requires
                cp == ((((b0 & 0x07) as u32) << 18) | (((b1 & 0x3F) as u32) << 12) | (((b2
                    & 0x3F) as u32) << 6) | ((b3 & 0x3F) as u32)),
                0xF0 <= b0 <= 0xF7,
                0x80 <= b1 <= 0xBF,
                0x80 <= b2 <= 0xBF,
                0x80 <= b3 <= 0xBF,
                0x10000 <= cp <= 0x10FFFF,
        ;
        assert(second_byte_ok(b0, b1));
    }
}

/// Law: on well-formed UTF-8, lossy decoding is exact — it yields the
/// very characters the bytes encode, introducing nothing.
pub proof fn lemma_lossy_decode_valid(s: Seq<u8>)
    requires
        valid_utf8(s),
    ensures
        lossy_decode(s) == decode_utf8(s),
    decreases s.len(),
{
    if s.len() == 0 {
    } else {
        lemma_valid_scalar_unit(s);
        lemma_unit_len_bounds(s);
        assert(pop_first_scalar(s) =~= s.skip(unit_len(s)));
        lemma_lossy_decode_valid(pop_first_scalar(s));
        assert(lossy_decode(s) =~= decode_utf8(s));
    }
}

/// Find the last position in a byte slice that ends on a UTF-8 boundary,
/// so that no multi-byte character is split across emissions.  Scans
/// backward: ASCII ends a boundary after itself; a leading byte either
/// completes (boundary after its sequence) or is withheld (boundary before
/// it); continuation bytes are skipped.  An empty or all-continuation
/// buffer yields 0.
pub fn find_utf8_boundary(bytes: &[u8]) -> (r: usize)
    ensures
        r as int == boundary_of(bytes@),
        0 <= r <= bytes.len(),
{
    let len: usize = bytes.len();
    proof {
        lemma_boundary_bounds(bytes@);
    }
    let mut i: usize = len;
    while i > 0
        invariant
            0 <= i <= len,
            len == bytes@.len(),
            scan_back(bytes@, len - 1) == scan_back(bytes@, i - 1),
        decreases i,
    {
        let byte: u8 = bytes[i - 1];
        if byte < 0x80 {
            return i;
        } else if byte >= 0xC0 {
            let expected_len: usize = if byte >= 0xF0 {
                4
            } else if byte >= 0xE0 {
                3
            } else {
                2
            };
            if len - (i - 1) >= expected_len {
                return i - 1 + expected_len;
            } else {
                return i - 1;
            }
        }
        i = i - 1;
    }
    0
}

} // verus!
