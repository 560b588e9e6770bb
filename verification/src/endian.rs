//! Big-endian integers of a fixed width.
//!
//! Offsets and counts are stored most significant byte first. The model is
//! arithmetic: a byte string spells a number in base 256.
use crate::page_layout::PTR_SIZE;
use vstd::prelude::*;

verus! {

/// `n` zero bytes.
pub open spec fn zeros(n: nat) -> Seq<u8> {
    Seq::new(n, |i: int| 0u8)
}

/// 256 to the power `n`.
pub open spec fn pow256(n: nat) -> nat
    decreases n,
{
    if n == 0 {
        1
    } else {
        256 * pow256((n - 1) as nat)
    }
}

/// The number that `bytes` spell in base 256, most significant byte first.
pub open spec fn be_value(bytes: Seq<u8>) -> nat
    decreases bytes.len(),
{
    if bytes.len() == 0 {
        0
    } else {
        256 * be_value(bytes.drop_last()) + bytes.last() as nat
    }
}

/// The `width` lowest base-256 digits of `value`, most significant first.
pub open spec fn be_bytes(value: nat, width: nat) -> Seq<u8>
    decreases width,
{
    if width == 0 {
        Seq::empty()
    } else {
        be_bytes(value / 256, (width - 1) as nat).push((value % 256) as u8)
    }
}

/// The number stored in a field of `PTR_SIZE` bytes of which only the leading
/// `bytes` are given: the missing low-order bytes count as zero.
pub open spec fn be_value_padded(bytes: Seq<u8>) -> nat {
    be_value(bytes + zeros((PTR_SIZE - bytes.len()) as nat))
}

/// `pow256` grows with its argument.
pub proof fn lemma_pow256_monotonic(a: nat, b: nat)
    requires
        a <= b,
    ensures
        0 < pow256(a) <= pow256(b),
    decreases b,
{
    if b == 0 {
    } else if a == b {
        lemma_pow256_monotonic((a - 1) as nat, (b - 1) as nat);
    } else {
        lemma_pow256_monotonic(a, (b - 1) as nat);
    }
}

/// Eight bytes hold exactly the numbers below 2^64.
pub proof fn lemma_pow256_of_ptr_size()
    ensures
        pow256(PTR_SIZE as nat) == 0x1_0000_0000_0000_0000,
{
    reveal_with_fuel(pow256, 9);
}

/// `be_bytes` yields exactly `width` bytes.
pub proof fn lemma_be_bytes_len(value: nat, width: nat)
    ensures
        be_bytes(value, width).len() == width,
    decreases width,
{
    if width > 0 {
        lemma_be_bytes_len(value / 256, (width - 1) as nat);
    }
}

/// A string of `n` bytes spells a number below 256^n.
pub proof fn lemma_be_value_bound(bytes: Seq<u8>)
    ensures
        be_value(bytes) < pow256(bytes.len()),
    decreases bytes.len(),
{
    if bytes.len() > 0 {
        lemma_be_value_bound(bytes.drop_last());
    }
}

/// Reading back what was written returns the number, if the field is wide
/// enough to hold it.
pub proof fn lemma_be_value_of_be_bytes(value: nat, width: nat)
    requires
        value < pow256(width),
    ensures
        be_value(be_bytes(value, width)) == value,
    decreases width,
{
    if width > 0 {
        let rest = be_bytes(value / 256, (width - 1) as nat);
        lemma_be_value_of_be_bytes(value / 256, (width - 1) as nat);
        assert(be_bytes(value, width).drop_last() =~= rest);
    }
}

/// Writing back the number that a byte string spells returns the string.
pub proof fn lemma_be_bytes_of_be_value(bytes: Seq<u8>)
    ensures
        be_bytes(be_value(bytes), bytes.len()) == bytes,
    decreases bytes.len(),
{
    if bytes.len() > 0 {
        let front = bytes.drop_last();
        lemma_be_bytes_of_be_value(front);
        let value = be_value(bytes);
        assert(value / 256 == be_value(front));
        assert(value % 256 == bytes.last() as nat);
        assert(be_bytes(value, bytes.len()) =~= bytes);
    } else {
        assert(be_bytes(be_value(bytes), bytes.len()) =~= bytes);
    }
}

/// The `PTR_SIZE` big-endian bytes of `value`.
pub fn to_be_bytes(value: usize) -> (bytes: [u8; PTR_SIZE])
    ensures
        bytes@ == be_bytes(value as nat, PTR_SIZE as nat),
{
    let mut bytes: [u8; PTR_SIZE] = [0u8; PTR_SIZE];
    let mut rest: usize = value;
    let mut i: usize = PTR_SIZE;
    proof {
        let whole = be_bytes(value as nat, PTR_SIZE as nat);
        lemma_be_bytes_len(value as nat, PTR_SIZE as nat);
        assert(whole.subrange(0, PTR_SIZE as int) =~= whole);
    }
    while i > 0
        invariant
            i <= PTR_SIZE,
            be_bytes(value as nat, PTR_SIZE as nat).len() == PTR_SIZE,
            be_bytes(value as nat, PTR_SIZE as nat).subrange(0, i as int) == be_bytes(
                rest as nat,
                i as nat,
            ),
            forall|j: int|
                i <= j < PTR_SIZE ==> bytes@[j] == be_bytes(value as nat, PTR_SIZE as nat)[j],
        decreases i,
    {
        proof {
            lemma_be_bytes_len(rest as nat / 256, (i - 1) as nat);
        }
        let ghost whole = be_bytes(value as nat, PTR_SIZE as nat);
        let ghost part = be_bytes(rest as nat, i as nat);
        i = i - 1;
        bytes[i] = (rest % 256) as u8;
        assert(whole[i as int] == part[i as int]);
        assert(whole.subrange(0, i as int) =~= part.drop_last());
        rest = rest / 256;
    }
    assert(bytes@ =~= be_bytes(value as nat, PTR_SIZE as nat));
    bytes
}

/// The number stored in a field of `PTR_SIZE` bytes whose leading bytes are
/// `bytes`; `None` where it is too large for this machine's `usize`.
pub fn from_be_bytes(bytes: &[u8]) -> (value: Option<usize>)
    requires
        bytes@.len() <= PTR_SIZE,
    ensures
        value == (if be_value_padded(bytes@) <= usize::MAX {
            Some(be_value_padded(bytes@) as usize)
        } else {
            None
        }),
{
    let ghost field = bytes@ + zeros((PTR_SIZE - bytes@.len()) as nat);
    let mut acc: u64 = 0;
    let mut i: usize = 0;
    while i < PTR_SIZE
        invariant
            i <= PTR_SIZE,
            bytes@.len() <= PTR_SIZE,
            field == bytes@ + zeros((PTR_SIZE - bytes@.len()) as nat),
            acc == be_value(field.subrange(0, i as int)),
        decreases PTR_SIZE - i,
    {
        let digit: u8 = if i < bytes.len() {
            bytes[i]
        } else {
            0
        };
        proof {
            let before = field.subrange(0, i as int);
            let after = field.subrange(0, i + 1);
            assert(after.drop_last() =~= before);
            assert(after.last() == digit);
            lemma_be_value_bound(after);
            lemma_pow256_monotonic((i + 1) as nat, PTR_SIZE as nat);
            lemma_pow256_of_ptr_size();
        }
        acc = acc * 256 + digit as u64;
        i = i + 1;
    }
    assert(field.subrange(0, PTR_SIZE as int) =~= field);
    if acc <= usize::MAX as u64 {
        Some(acc as usize)
    } else {
        None
    }
}

} // verus!
