//! Lossy UTF-8 decoding.
//!
//! Malformed input must never make the boundary fail, so decoding replaces
//! every ill-formed sequence with the replacement character U+FFFD. The
//! substitution follows the Unicode recommendation: each maximal subpart of
//! an ill-formed subsequence (the longest prefix that could still begin a
//! well-formed sequence) becomes one replacement mark.

use vstd::prelude::*;

verus! {

/// A continuation byte: the trailing bytes of a multi-byte sequence.
pub open spec fn is_cont(b: u8) -> bool {
    0x80 <= b <= 0xBF
}

/// Whether `b2` may stand right after the lead byte `b1`. The lead bytes
/// 0xE0, 0xED, 0xF0 and 0xF4 restrict their second byte further than the
/// plain continuation range, which rules out overlong forms and code points
/// beyond U+10FFFF or in the surrogate range.
pub open spec fn second_ok(b1: u8, b2: u8) -> bool {
    if b1 == 0xE0 {
        0xA0 <= b2 <= 0xBF
    } else if b1 == 0xED {
        0x80 <= b2 <= 0x9F
    } else if b1 == 0xF0 {
        0x90 <= b2 <= 0xBF
    } else if b1 == 0xF4 {
        0x80 <= b2 <= 0x8F
    } else {
        is_cont(b2)
    }
}

/// How many bytes a well-formed sequence led by `b` has; 0 for a byte that
/// leads no well-formed sequence (a stray continuation byte, the overlong
/// leads 0xC0 and 0xC1, and 0xF5 upward).
pub open spec fn seq_len(b: u8) -> int {
    if b < 0x80 {
        1
    } else if 0xC2 <= b <= 0xDF {
        2
    } else if 0xE0 <= b <= 0xEF {
        3
    } else if 0xF0 <= b <= 0xF4 {
        4
    } else {
        0
    }
}

/// How many bytes the first decoding step of `s` consumes: the whole
/// sequence where it is well formed, else its maximal subpart, which is at
/// least one byte.
pub open spec fn step_size(s: Seq<u8>) -> int
    recommends
        s.len() > 0,
{
    let b0 = s[0];
    if seq_len(b0) <= 1 {
        1
    } else if s.len() < 2 || !second_ok(b0, s[1]) {
        1
    } else if seq_len(b0) == 2 {
        2
    } else if s.len() < 3 || !is_cont(s[2]) {
        2
    } else if seq_len(b0) == 3 {
        3
    } else if s.len() < 4 || !is_cont(s[3]) {
        3
    } else {
        4
    }
}

/// Whether the first decoding step of `s` consumes a well-formed sequence.
pub open spec fn step_valid(s: Seq<u8>) -> bool
    recommends
        s.len() > 0,
{
    seq_len(s[0]) >= 1 && step_size(s) == seq_len(s[0])
}

/// The UTF-8 encoding of the replacement character U+FFFD.
pub open spec fn replacement() -> Seq<u8> {
    seq![0xEFu8, 0xBFu8, 0xBDu8]
}

/// The lossy decoding of `s`, as bytes: well-formed sequences are kept,
/// every maximal subpart of an ill-formed subsequence becomes one
/// replacement mark.
pub open spec fn lossy(s: Seq<u8>) -> Seq<u8>
    decreases s.len(),
{
    if s.len() == 0 {
        Seq::empty()
    } else {
        let k = step_size(s);
        let piece = if step_valid(s) {
            s.take(k)
        } else {
            replacement()
        };
        piece + lossy(s.skip(k))
    }
}

/// Whether `s` is entirely well-formed UTF-8.
pub open spec fn is_valid_utf8(s: Seq<u8>) -> bool
    decreases s.len(),
{
    s.len() == 0 || (step_valid(s) && is_valid_utf8(s.skip(step_size(s))))
}

/// Law: decoding a well-formed input changes nothing.
pub proof fn lemma_lossy_of_valid(s: Seq<u8>)
    requires
        is_valid_utf8(s),
    ensures
        lossy(s) == s,
    decreases s.len(),
{
    if s.len() > 0 {
        let k = step_size(s);
        lemma_lossy_of_valid(s.skip(k));
        assert(s.take(k) + s.skip(k) =~= s);
    }
}

/// Law: decoding introduces no zero byte where the input had none.
pub proof fn lemma_lossy_no_zero(s: Seq<u8>)
    requires
        forall|i: int| 0 <= i < s.len() ==> s[i] != 0,
    ensures
        forall|i: int| 0 <= i < lossy(s).len() ==> lossy(s)[i] != 0,
    decreases s.len(),
{
    if s.len() > 0 {
        let k = step_size(s);
        assert(forall|i: int| 0 <= i < s.skip(k).len() ==> s.skip(k)[i] != 0);
        lemma_lossy_no_zero(s.skip(k));
        let rest = lossy(s.skip(k));
        let piece = if step_valid(s) {
            s.take(k)
        } else {
            replacement()
        };
        assert(lossy(s) == piece + rest);
        assert forall|i: int| 0 <= i < lossy(s).len() implies lossy(s)[i] != 0 by {
            if i < piece.len() {
                assert(lossy(s)[i] == piece[i]);
                if step_valid(s) {
                    assert(piece[i] == s[i]);
                }
            } else {
                assert(lossy(s)[i] == rest[i - piece.len()]);
            }
        }
    }
}

/// Law: an ill-formed input leaves a replacement mark in the decoding; the
/// returned index points at one.
pub proof fn lemma_lossy_marks_invalid(s: Seq<u8>) -> (i: int)
    requires
        !is_valid_utf8(s),
    ensures
        0 <= i,
        i + 3 <= lossy(s).len(),
        lossy(s).subrange(i, i + 3) == replacement(),
    decreases s.len(),
{
    let k = step_size(s);
    let rest = lossy(s.skip(k));
    if !step_valid(s) {
        assert(lossy(s) == replacement() + rest);
        assert(lossy(s).subrange(0, 3) =~= replacement());
        0
    } else {
        let j = lemma_lossy_marks_invalid(s.skip(k));
        assert(lossy(s) == s.take(k) + rest);
        assert(lossy(s).len() == k + rest.len());
        assert(lossy(s).subrange(k + j, (k + j) + 3) =~= rest.subrange(j, j + 3));
        k + j
    }
}

/// Law: an all-ASCII sequence is well-formed.
pub proof fn lemma_ascii_valid(s: Seq<u8>)
    requires
        forall|i: int| 0 <= i < s.len() ==> s[i] < 0x80,
    ensures
        is_valid_utf8(s),
    decreases s.len(),
{
    if s.len() > 0 {
        assert(step_size(s) == 1);
        assert(forall|i: int| 0 <= i < s.skip(1).len() ==> s.skip(1)[i] < 0x80);
        lemma_ascii_valid(s.skip(1));
    }
}

/// Law: well-formedness survives concatenation.
pub proof fn lemma_valid_concat(a: Seq<u8>, b: Seq<u8>)
    requires
        is_valid_utf8(a),
        is_valid_utf8(b),
    ensures
        is_valid_utf8(a + b),
    decreases a.len(),
{
    if a.len() == 0 {
        assert(a + b =~= b);
    } else {
        let k = step_size(a);
        assert(step_size(a + b) == k);
        assert(step_valid(a + b));
        assert((a + b).skip(k) =~= a.skip(k) + b);
        lemma_valid_concat(a.skip(k), b);
    }
}

/// Law: a well-formed step taken out of a sequence is well-formed on its
/// own.
proof fn lemma_step_piece_valid(s: Seq<u8>)
    requires
        s.len() > 0,
        step_valid(s),
    ensures
        is_valid_utf8(s.take(step_size(s))),
{
    let k = step_size(s);
    let t = s.take(k);
    assert(t.len() == k);
    assert(forall|i: int| 0 <= i < k ==> t[i] == s[i]);
    assert(step_size(t) == k);
    assert(step_valid(t));
    assert(t.skip(k) =~= Seq::<u8>::empty());
    assert(is_valid_utf8(Seq::<u8>::empty()));
    assert(is_valid_utf8(t));
}

/// Law: the replacement mark is well-formed.
pub proof fn lemma_replacement_valid()
    ensures
        is_valid_utf8(replacement()),
{
    let r = replacement();
    assert(r[0] == 0xEF && r[1] == 0xBF && r[2] == 0xBD);
    assert(step_size(r) == 3);
    assert(step_valid(r));
    assert(r.skip(3) =~= Seq::<u8>::empty());
    assert(is_valid_utf8(Seq::<u8>::empty()));
    assert(is_valid_utf8(r));
}

/// Law: the decoding is itself well-formed UTF-8, whatever came in.
pub proof fn lemma_lossy_valid(s: Seq<u8>)
    ensures
        is_valid_utf8(lossy(s)),
    decreases s.len(),
{
    if s.len() == 0 {
        assert(is_valid_utf8(lossy(s)));
    } else {
        let k = step_size(s);
        lemma_lossy_valid(s.skip(k));
        if step_valid(s) {
            lemma_step_piece_valid(s);
            lemma_valid_concat(s.take(k), lossy(s.skip(k)));
        } else {
            lemma_replacement_valid();
            lemma_valid_concat(replacement(), lossy(s.skip(k)));
        }
    }
}

/// Second-byte check, mirroring `second_ok`.
fn second_byte_ok(b1: u8, b2: u8) -> (r: bool)
    ensures
        r == second_ok(b1, b2),
{
    if b1 == 0xE0 {
        0xA0 <= b2 && b2 <= 0xBF
    } else if b1 == 0xED {
        0x80 <= b2 && b2 <= 0x9F
    } else if b1 == 0xF0 {
        0x90 <= b2 && b2 <= 0xBF
    } else if b1 == 0xF4 {
        0x80 <= b2 && b2 <= 0x8F
    } else {
        0x80 <= b2 && b2 <= 0xBF
    }
}

/// Continuation-byte check, mirroring `is_cont`.
fn cont_byte(b: u8) -> (r: bool)
    ensures
        r == is_cont(b),
{
    0x80 <= b && b <= 0xBF
}

/// Decodes `input` lossily, returning the UTF-8 bytes of the decoding.
pub fn decode_lossy(input: &Vec<u8>) -> (out: Vec<u8>)
    ensures
        out@ == lossy(input@),
{
    let mut out: Vec<u8> = Vec::new();
    let mut i: usize = 0;
    proof {
        assert(input@.skip(0) =~= input@);
        assert(out@ + lossy(input@) =~= lossy(input@));
    }
    while i < input.len()
        invariant
            i <= input.len(),
            out@ + lossy(input@.skip(i as int)) == lossy(input@),
        decreases input@.len() - i,
    {
        let ghost s = input@.skip(i as int);
        let ghost out_pre = out@;
        let b0 = input[i];
        let rem = input.len() - i;
        let need: usize = if b0 < 0x80 {
            1
        } else if 0xC2 <= b0 && b0 <= 0xDF {
            2
        } else if 0xE0 <= b0 && b0 <= 0xEF {
            3
        } else if 0xF0 <= b0 && b0 <= 0xF4 {
            4
        } else {
            0
        };
        assert(need == seq_len(b0));
        let (k, valid): (usize, bool) = if need <= 1 {
            (1, need == 1)
        } else if rem < 2 || !second_byte_ok(b0, input[i + 1]) {
            (1, false)
        } else if need == 2 {
            (2, true)
        } else if rem < 3 || !cont_byte(input[i + 2]) {
            (2, false)
        } else if need == 3 {
            (3, true)
        } else if rem < 4 || !cont_byte(input[i + 3]) {
            (3, false)
        } else {
            (4, true)
        };
        proof {
            assert(s.len() == rem);
            assert(s[0] == b0);
            assert(s.len() >= 2 ==> s[1] == input@[i + 1]);
            assert(s.len() >= 3 ==> s[2] == input@[i + 2]);
            assert(s.len() >= 4 ==> s[3] == input@[i + 3]);
            assert(k as int == step_size(s));
            assert(valid == step_valid(s));
        }
        if valid {
            let mut j: usize = 0;
            while j < k
                invariant
                    j <= k,
                    k <= input.len() - i,
                    out@ == out_pre + input@.subrange(i as int, i + j),
                decreases k - j,
            {
                out.push(input[i + j]);
                proof {
                    assert(out@ =~= out_pre + input@.subrange(i as int, i + j + 1));
                }
                j = j + 1;
            }
            proof {
                assert(s.take(k as int) =~= input@.subrange(i as int, i + k));
            }
        } else {
            out.push(0xEF);
            out.push(0xBF);
            out.push(0xBD);
            proof {
                assert(out@ =~= out_pre + replacement());
            }
        }
        proof {
            let piece = if step_valid(s) {
                s.take(k as int)
            } else {
                replacement()
            };
            assert(lossy(s) == piece + lossy(s.skip(k as int)));
            assert(out@ == out_pre + piece);
            assert(s.skip(k as int) =~= input@.skip(i + k));
            assert(out@ + lossy(input@.skip(i + k)) =~= out_pre + lossy(s));
        }
        i = i + k;
    }
    proof {
        assert(input@.skip(i as int) =~= Seq::<u8>::empty());
        assert(out@ + lossy(input@.skip(i as int)) =~= out@);
    }
    out
}

} // verus!
