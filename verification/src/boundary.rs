//! The string-exchange boundary.
//!
//! `format_greeting` turns caller-supplied bytes into an owned,
//! null-terminated message buffer; `release` takes such a buffer back and
//! reclaims it. Together they form the ownership handoff: every buffer a
//! call returns is meant to be paired with exactly one release.

use vstd::prelude::*;
use crate::utf8::{decode_lossy, is_valid_utf8, lemma_ascii_valid, lemma_lossy_marks_invalid,
    lemma_lossy_no_zero, lemma_lossy_of_valid, lemma_lossy_valid, lemma_valid_concat, lossy,
    replacement, step_size, step_valid};

verus! {

/// The bytes of the template ahead of the caller's text: "Hello, ".
pub open spec fn greeting_prefix() -> Seq<u8> {
    seq![72u8, 101u8, 108u8, 108u8, 111u8, 44u8, 32u8]
}

/// The bytes of the template after the caller's text: an exclamation mark,
/// then " (from Rust " with the crab mark U+1F980 and a closing parenthesis.
pub open spec fn greeting_suffix() -> Seq<u8> {
    seq![33u8, 32u8, 40u8, 102u8, 114u8, 111u8, 109u8, 32u8, 82u8, 117u8, 115u8, 116u8, 32u8,
        240u8, 159u8, 166u8, 128u8, 41u8]
}

/// The whole message a call produces, terminator and all: the template
/// with the lossy decoding of the input embedded, then a zero byte.
pub open spec fn spec_greeting(input: Seq<u8>) -> Seq<u8> {
    greeting_prefix() + lossy(input) + greeting_suffix() + seq![0u8]
}

/// A message buffer whose ownership rests with the holder of this value.
/// Dropping it, by `release` or otherwise, reclaims the memory; nothing
/// else ever frees it, so each buffer is released at most once.
pub struct OwnedText {
    bytes: Vec<u8>,
}

impl View for OwnedText {
    type V = Seq<u8>;

    closed spec fn view(&self) -> Seq<u8> {
        self.bytes@
    }
}

impl OwnedText {
    /// Null-terminated, with the terminator the only zero byte.
    pub open spec fn wf(&self) -> bool {
        &&& self@.len() >= 1
        &&& self@.last() == 0
        &&& forall|i: int| 0 <= i < self@.len() - 1 ==> self@[i] != 0
    }

    /// The buffer's bytes, terminator and all, for a caller that only
    /// needs to look.
    pub fn as_bytes(&self) -> (r: &Vec<u8>)
        ensures
            r@ == self@,
    {
        &self.bytes
    }

    /// Hands the raw buffer out, terminator and all; ownership moves with
    /// it, and the handle is gone.
    pub fn into_bytes(self) -> (r: Vec<u8>)
        ensures
            r@ == self@,
    {
        self.bytes
    }
}

/// Builds the greeting message around `input`, which holds the bytes of
/// the caller's text up to but not including its terminator — a
/// null-terminated source never yields an interior zero byte, whence the
/// precondition. Malformed sequences are tolerated by lossy decoding; the
/// call never fails. The returned buffer is owned by the caller and is to
/// be given back through `release` exactly once.
pub fn format_greeting(input: &Vec<u8>) -> (r: OwnedText)
    requires
        forall|i: int| 0 <= i < input@.len() ==> input@[i] != 0,
    ensures
        r@ == spec_greeting(input@),
        r.wf(),
{
    let mut bytes: Vec<u8> = Vec::new();
    bytes.push(72);
    bytes.push(101);
    bytes.push(108);
    bytes.push(108);
    bytes.push(111);
    bytes.push(44);
    bytes.push(32);
    proof {
        assert(bytes@ =~= greeting_prefix());
    }
    let mut body = decode_lossy(input);
    bytes.append(&mut body);
    proof {
        assert(bytes@ =~= greeting_prefix() + lossy(input@));
    }
    bytes.push(33);
    bytes.push(32);
    bytes.push(40);
    bytes.push(102);
    bytes.push(114);
    bytes.push(111);
    bytes.push(109);
    bytes.push(32);
    bytes.push(82);
    bytes.push(117);
    bytes.push(115);
    bytes.push(116);
    bytes.push(32);
    bytes.push(240);
    bytes.push(159);
    bytes.push(166);
    bytes.push(128);
    bytes.push(41);
    bytes.push(0);
    proof {
        assert(bytes@ =~= spec_greeting(input@));
        lemma_lossy_no_zero(input@);
        assert forall|i: int| 0 <= i < bytes@.len() - 1 implies bytes@[i] != 0 by {
            let p = greeting_prefix().len() as int;
            let m = lossy(input@).len() as int;
            if i < p {
                assert(bytes@[i] == greeting_prefix()[i]);
            } else if i < p + m {
                assert(bytes@[i] == lossy(input@)[i - p]);
            } else {
                assert(bytes@[i] == greeting_suffix()[i - p - m]);
            }
        }
    }
    OwnedText { bytes }
}

/// Takes a buffer back across the boundary and reclaims it. `None` stands
/// for the null handle and the call does nothing; with `Some`, the handle
/// is consumed here, so no further use — and no second release — of the
/// same buffer can follow.
pub fn release(owned: Option<OwnedText>) {
    match owned {
        Option::Some(_text) => {
        },
        Option::None => {
        },
    }
}

/// Law: a well-encoded input is embedded verbatim in the message, which
/// ends in the terminator.
pub proof fn lemma_greeting_embeds_valid_input(input: Seq<u8>)
    requires
        is_valid_utf8(input),
    ensures
        spec_greeting(input).subrange(
            greeting_prefix().len() as int,
            greeting_prefix().len() + input.len() as int,
        ) == input,
        spec_greeting(input).len() >= 1,
        spec_greeting(input).last() == 0,
{
    lemma_lossy_of_valid(input);
    assert(spec_greeting(input).subrange(
        greeting_prefix().len() as int,
        greeting_prefix().len() + input.len() as int,
    ) =~= input);
}

/// Law: an ill-formed input still yields a message, with the replacement
/// mark inside it; the returned index points at one.
pub proof fn lemma_greeting_marks_invalid_input(input: Seq<u8>) -> (i: int)
    requires
        !is_valid_utf8(input),
    ensures
        0 <= i,
        i + 3 <= spec_greeting(input).len(),
        spec_greeting(input).subrange(i, i + 3) == replacement(),
{
    let j = lemma_lossy_marks_invalid(input);
    let p = greeting_prefix().len() as int;
    assert(spec_greeting(input).subrange(p + j, (p + j) + 3) =~= lossy(input).subrange(j, j + 3));
    p + j
}

/// Law: the message ahead of its terminator is well-formed UTF-8, whatever
/// bytes came in — so the returned buffer always decodes as text, and by
/// the contract of `format_greeting` it decodes exactly to the template
/// around the lossy decoding of the input.
pub proof fn lemma_greeting_message_well_formed(input: Seq<u8>)
    ensures
        is_valid_utf8(spec_greeting(input).take(spec_greeting(input).len() - 1)),
{
    let g = spec_greeting(input);
    let body = greeting_prefix() + lossy(input) + greeting_suffix();
    assert(g.take(g.len() - 1) =~= body);
    assert(forall|i: int| 0 <= i < greeting_prefix().len() ==> greeting_prefix()[i] < 0x80);
    lemma_ascii_valid(greeting_prefix());
    let head = seq![33u8, 32u8, 40u8, 102u8, 114u8, 111u8, 109u8, 32u8, 82u8, 117u8, 115u8, 116u8,
        32u8];
    let crab = seq![240u8, 159u8, 166u8, 128u8];
    let tail = seq![41u8];
    assert(greeting_suffix() =~= head + (crab + tail));
    assert(forall|i: int| 0 <= i < head.len() ==> head[i] < 0x80);
    lemma_ascii_valid(head);
    assert(step_size(crab) == 4);
    assert(step_valid(crab));
    assert(crab.skip(4) =~= Seq::<u8>::empty());
    assert(is_valid_utf8(Seq::<u8>::empty()));
    assert(is_valid_utf8(crab));
    assert(forall|i: int| 0 <= i < tail.len() ==> tail[i] < 0x80);
    lemma_ascii_valid(tail);
    lemma_valid_concat(crab, tail);
    lemma_valid_concat(head, crab + tail);
    lemma_lossy_valid(input);
    lemma_valid_concat(lossy(input), greeting_suffix());
    lemma_valid_concat(greeting_prefix(), lossy(input) + greeting_suffix());
    assert(body =~= greeting_prefix() + (lossy(input) + greeting_suffix()));
}

/// Law: the message is a function of the input bytes alone, so repeated
/// calls on equal input yield byte-identical buffers.
pub proof fn lemma_greeting_deterministic(a: Seq<u8>, b: Seq<u8>)
    requires
        a == b,
    ensures
        spec_greeting(a) == spec_greeting(b),
{
}

} // verus!
