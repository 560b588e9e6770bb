//! Text in fixed-width slots.
//!
//! A key or a value is stored as its UTF-8 bytes at the start of a slot, and
//! the rest of the slot is zero. Reading a slot drops the zero bytes at its
//! end, so a text that itself ends in NUL characters loses them.
use crate::endian::zeros;
use crate::error::Error;
use core::str::Utf8Error;
use vstd::prelude::*;
use vstd::string::StringExecFns;
use vstd::utf8::*;

verus! {

/// `bytes` without the zero bytes at its end.
pub open spec fn trim_zeros(bytes: Seq<u8>) -> Seq<u8>
    decreases bytes.len(),
{
    if bytes.len() > 0 && bytes.last() == 0 {
        trim_zeros(bytes.drop_last())
    } else {
        bytes
    }
}

/// `text` without the NUL characters at its end.
pub open spec fn trim_nul(text: Seq<char>) -> Seq<char>
    decreases text.len(),
{
    if text.len() > 0 && text.last() == '\0' {
        trim_nul(text.drop_last())
    } else {
        text
    }
}

/// The number of bytes that `text` takes in a slot.
pub open spec fn text_len(text: Seq<char>) -> nat {
    encode_utf8(text).len()
}

/// The slot of `width` bytes that holds `text`: its UTF-8 bytes, then zeros.
pub open spec fn slot_bytes(text: Seq<char>, width: nat) -> Seq<u8>
    recommends
        text_len(text) <= width,
{
    encode_utf8(text) + zeros((width - text_len(text)) as nat)
}

/// The text that a slot holds, where the slot is valid UTF-8.
pub open spec fn slot_text(slot: Seq<u8>) -> Seq<char>
    recommends
        valid_utf8(slot),
{
    decode_utf8(trim_zeros(slot))
}

/// `core::str::Utf8Error`, what `core::str::from_utf8` fails with. Nothing is
/// claimed of what it holds.
#[verifier::external_type_specification]
#[verifier::external_body]
pub struct ExUtf8Error(Utf8Error);

/// `core::str::from_utf8` succeeds exactly on the byte strings that are valid
/// UTF-8, and the string slice it returns has the given bytes as its encoding.
pub assume_specification[ core::str::from_utf8 ](v: &[u8]) -> (r: Result<&str, Utf8Error>)
    ensures
        r is Ok <==> valid_utf8(v@),
        r matches Ok(s) ==> encode_utf8(s@) == v@,
;

/// What `trim_zeros` keeps is a prefix that does not end in zero, and what it
/// drops is zero.
pub proof fn lemma_trim_zeros_prefix(bytes: Seq<u8>)
    ensures
        trim_zeros(bytes).len() <= bytes.len(),
        trim_zeros(bytes) == bytes.subrange(0, trim_zeros(bytes).len() as int),
        trim_zeros(bytes).len() > 0 ==> trim_zeros(bytes).last() != 0,
        forall|i: int| trim_zeros(bytes).len() <= i < bytes.len() ==> bytes[i] == 0,
    decreases bytes.len(),
{
    if bytes.len() > 0 && bytes.last() == 0 {
        let front = bytes.drop_last();
        lemma_trim_zeros_prefix(front);
        assert(front.subrange(0, trim_zeros(front).len() as int) =~= bytes.subrange(
            0,
            trim_zeros(bytes).len() as int,
        ));
        assert forall|i: int| trim_zeros(bytes).len() <= i < bytes.len() implies bytes[i] == 0 by {
            if i < front.len() {
                assert(bytes[i] == front[i]);
            }
        }
    } else {
        assert(bytes.subrange(0, bytes.len() as int) =~= bytes);
    }
}

/// Zero bytes appended to a byte string are dropped again.
pub proof fn lemma_trim_zeros_of_padding(bytes: Seq<u8>, n: nat)
    ensures
        trim_zeros(bytes + zeros(n)) == trim_zeros(bytes),
    decreases n,
{
    if n == 0 {
        assert(bytes + zeros(0) =~= bytes);
    } else {
        let padded = bytes + zeros(n);
        assert(padded.drop_last() =~= bytes + zeros((n - 1) as nat));
        lemma_trim_zeros_of_padding(bytes, (n - 1) as nat);
    }
}

/// A character's encoding ends in a zero byte only if the character is NUL,
/// whose encoding is that one byte.
pub proof fn lemma_encode_scalar_last(c: char)
    ensures
        encode_scalar(c as u32).len() > 0,
        c == '\0' ==> encode_scalar(c as u32) == seq![0u8],
        c != '\0' ==> encode_scalar(c as u32).last() != 0,
{
    let s = c as u32;
    char_is_scalar(c);
    if has_width_1_encoding(s) {
        assert(s != 0 ==> (s & 0x7F) as u8 != 0) by (bit_vector)
            requires
                s <= 0x7F,
        ;
        assert(s == 0 ==> (s & 0x7F) as u8 == 0) by (bit_vector);
        assert(encode_scalar(s) =~= seq![leading_byte_width_1(s)]);
    } else {
        assert(0x80 | (s & 0x3F) as u8 != 0) by (bit_vector);
    }
}

/// The encoding of a text is the encoding of all but its last character,
/// followed by the encoding of the last.
pub proof fn lemma_encode_utf8_last(text: Seq<char>)
    requires
        text.len() > 0,
    ensures
        encode_utf8(text) == encode_utf8(text.drop_last()) + encode_scalar(text.last() as u32),
    decreases text.len(),
{
    if text.len() == 1 {
        assert(text.drop_first() =~= Seq::<char>::empty());
        assert(text.drop_last() =~= Seq::<char>::empty());
        assert(encode_utf8(text) =~= encode_utf8(text.drop_last()) + encode_scalar(
            text.last() as u32,
        ));
    } else {
        let tail = text.drop_first();
        lemma_encode_utf8_last(tail);
        assert(tail.drop_last() =~= text.drop_last().drop_first());
        assert(encode_utf8(text) =~= encode_utf8(text.drop_last()) + encode_scalar(
            text.last() as u32,
        ));
    }
}

/// Dropping the zero bytes at the end of a text's encoding is dropping the
/// NUL characters at the end of the text.
pub proof fn lemma_trim_zeros_of_encoding(text: Seq<char>)
    ensures
        trim_zeros(encode_utf8(text)) == encode_utf8(trim_nul(text)),
    decreases text.len(),
{
    if text.len() > 0 {
        let front = text.drop_last();
        let bytes = encode_utf8(text);
        lemma_encode_utf8_last(text);
        lemma_encode_scalar_last(text.last());
        if text.last() == '\0' {
            assert(bytes.drop_last() =~= encode_utf8(front));
            lemma_trim_zeros_of_encoding(front);
        }
    }
}

/// Zero bytes are valid UTF-8: each is a NUL character.
pub proof fn lemma_zeros_valid(n: nat)
    ensures
        valid_utf8(zeros(n)),
    decreases n,
{
    if n > 0 {
        assert(pop_first_scalar(zeros(n)) =~= zeros((n - 1) as nat));
        lemma_zeros_valid((n - 1) as nat);
    }
}

/// A slot that was filled with a text reads back as that text without the NUL
/// characters at its end.
pub proof fn lemma_slot_round_trip(text: Seq<char>, width: nat)
    requires
        text_len(text) <= width,
    ensures
        slot_bytes(text, width).len() == width,
        valid_utf8(slot_bytes(text, width)),
        slot_text(slot_bytes(text, width)) == trim_nul(text),
{
    let padding = (width - text_len(text)) as nat;
    encode_utf8_valid_utf8(text);
    lemma_zeros_valid(padding);
    valid_utf8_concat(encode_utf8(text), zeros(padding));
    lemma_trim_zeros_of_padding(encode_utf8(text), padding);
    lemma_trim_zeros_of_encoding(text);
    encode_utf8_decode_utf8(trim_nul(text));
}

/// The slot of `N` bytes that holds `text`, or `None` where `text` takes more
/// than `N` bytes.
pub fn pad_text<const N: usize>(text: &str) -> (slot: Option<[u8; N]>)
    ensures
        match slot {
            Some(bytes) => text_len(text@) <= N && bytes@ == slot_bytes(text@, N as nat),
            None => text_len(text@) > N,
        },
{
    let bytes = text.as_bytes();
    if bytes.len() > N {
        return None;
    }
    let mut slot: [u8; N] = [0u8; N];
    let mut i: usize = 0;
    while i < bytes.len()
        invariant
            i <= bytes@.len() <= N,
            forall|j: int| 0 <= j < i ==> slot@[j] == bytes@[j],
            forall|j: int| i <= j < N ==> slot@[j] == 0,
        decreases bytes@.len() - i,
    {
        slot[i] = bytes[i];
        i = i + 1;
    }
    assert(slot@ =~= slot_bytes(text@, N as nat));
    Some(slot)
}

/// The number of bytes of `bytes` that `trim_zeros` keeps.
pub fn trimmed_len(bytes: &[u8]) -> (n: usize)
    ensures
        n == trim_zeros(bytes@).len(),
        trim_zeros(bytes@) == bytes@.subrange(0, n as int),
{
    let mut n: usize = bytes.len();
    assert(bytes@.subrange(0, n as int) =~= bytes@);
    while n > 0 && bytes[n - 1] == 0
        invariant
            n <= bytes@.len(),
            trim_zeros(bytes@) == trim_zeros(bytes@.subrange(0, n as int)),
        decreases n,
    {
        assert(bytes@.subrange(0, n as int).drop_last() =~= bytes@.subrange(0, n - 1));
        n = n - 1;
    }
    n
}

/// The text that a slot holds.
///
/// Fails with `Utf8DecodeError` exactly where the slot is not valid UTF-8.
pub fn read_text(slot: &[u8]) -> (r: Result<String, Error>)
    ensures
        match r {
            Ok(text) => valid_utf8(slot@) && text@ == slot_text(slot@),
            Err(e) => !valid_utf8(slot@) && e == Error::Utf8DecodeError,
        },
{
    match core::str::from_utf8(slot) {
        Ok(padded) => {
            let n = trimmed_len(slot);
            proof {
                lemma_trim_zeros_prefix(slot@);
                if n < slot@.len() {
                    is_char_boundary_iff_not_is_continuation_byte(slot@, n as int);
                } else {
                    is_char_boundary_start_end_of_seq(slot@);
                }
            }
            let (text, _) = padded.split_at(n);
            proof {
                encode_utf8_decode_utf8(text@);
            }
            Ok(String::from_str(text))
        },
        Err(_) => Err(Error::Utf8DecodeError),
    }
}

} // verus!
