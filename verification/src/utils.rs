//! Alignment arithmetic and fixed-width fields.
//!
//! The four alignment functions differ only in what they return on a size that
//! is already a multiple of the step; the archive layout depends on each of
//! those corner cases, so each has its own specification.

use vstd::prelude::*;
use vstd::arithmetic::div_mod::lemma_fundamental_div_mod;
use vstd::arithmetic::div_mod::lemma_mod_multiples_basic;
use vstd::string::StringSliceAdditionalSpecFns;

verus! {

/// Number of bytes from `size` up to the next multiple of `step`, zero when
/// `size` is such a multiple.
pub open spec fn spec_needed_to_align(size: int, step: int) -> int {
    if size % step == 0 {
        0
    } else {
        step - size % step
    }
}

/// Number of bytes from `size` up to the next multiple of `step` that is
/// strictly greater than `size`.
pub open spec fn spec_needed_to_align_with_excess(size: int, step: int) -> int {
    step - size % step
}

/// `size` rounded up to a multiple of `step`, except that a `size` which is
/// already a multiple gives zero.
pub open spec fn spec_pad_to_nearest(size: int, step: int) -> int {
    if size % step == 0 {
        0
    } else {
        size + (step - size % step)
    }
}

/// The least multiple of `step` that is strictly greater than `size`.
pub open spec fn spec_pad_to_nearest_with_excess(size: int, step: int) -> int {
    size + (step - size % step)
}

/// The bytes of a field of `size` bytes that holds `bytes`: cut off where
/// `bytes` is longer, filled with zero bytes where it is shorter.
pub open spec fn spec_to_fixed_length(bytes: Seq<u8>, size: nat) -> Seq<u8> {
    Seq::new(
        size,
        |i: int|
            if i < bytes.len() {
                bytes[i]
            } else {
                0u8
            },
    )
}

/// Subtracting the remainder leaves a multiple, and adding one more step keeps it one.
pub proof fn lemma_round_up_is_multiple(size: int, step: int)
    requires
        0 <= size,
        0 < step,
    ensures
        (size - size % step) % step == 0,
        (size + (step - size % step)) % step == 0,
        0 <= size % step < step,
{
    lemma_fundamental_div_mod(size, step);
    let q = size / step;
    assert(size - size % step == step * q);
    assert(size + (step - size % step) == step * (q + 1)) by (nonlinear_arith)
        requires
            size - size % step == step * q,
    ;
    lemma_mod_multiples_basic(q, step);
    lemma_mod_multiples_basic(q + 1, step);
    assert(step * q == q * step) by (nonlinear_arith);
    assert(step * (q + 1) == (q + 1) * step) by (nonlinear_arith);
}

/// WARNING: cuts the string off at `size` bytes where it is longer.
pub fn to_fixed_length(string: &str, size: usize) -> (bytes: Vec<u8>)
    ensures
        bytes@ == spec_to_fixed_length(string.spec_bytes(), size as nat),
        bytes@.len() == size,
        string.spec_bytes().len() <= size ==> bytes@.subrange(
            0,
            string.spec_bytes().len() as int,
        ) == string.spec_bytes() && forall|i: int|
            string.spec_bytes().len() <= i < size ==> bytes@[i] == 0,
        string.spec_bytes().len() > size ==> bytes@ == string.spec_bytes().subrange(
            0,
            size as int,
        ),
{
    let source: &[u8] = string.as_bytes();
    let mut bytes: Vec<u8> = Vec::new();
    let mut i: usize = 0;
    while i < size
        invariant
            i <= size,
            source@ == string.spec_bytes(),
            bytes@.len() == i,
            forall|k: int|
                0 <= k < i ==> bytes@[k] == spec_to_fixed_length(source@, size as nat)[k],
        decreases size - i,
    {
        if i < source.len() {
            bytes.push(source[i]);
        } else {
            bytes.push(0u8);
        }
        i = i + 1;
    }
    assert(bytes@ =~= spec_to_fixed_length(string.spec_bytes(), size as nat));
    if source.len() <= size {
        assert(bytes@.subrange(0, source@.len() as int) =~= source@);
    } else {
        assert(bytes@ =~= source@.subrange(0, size as int));
    }
    bytes
}

/// Rounds `size` up to a multiple of `step`; gives 0 where `size` is one already.
#[inline]
pub fn pad_to_nearest(size: usize, step: usize) -> (padded: usize)
    requires
        step > 0,
        spec_pad_to_nearest(size as int, step as int) <= usize::MAX,
    ensures
        padded == spec_pad_to_nearest(size as int, step as int),
        size % step == 0 ==> padded == 0,
        size % step != 0 ==> padded > size && padded % step == 0 && padded - size < step,
{
    proof {
        lemma_round_up_is_multiple(size as int, step as int);
    }
    let rem: usize = size % step;

    if rem == 0 {
        0
    } else {
        size + (step - rem)
    }
}

/// Rounds `size` up to the next multiple of `step` above it.
#[inline]
pub fn pad_to_nearest_with_excess(size: usize, step: usize) -> (padded: usize)
    requires
        step > 0,
        spec_pad_to_nearest_with_excess(size as int, step as int) <= usize::MAX,
    ensures
        padded == spec_pad_to_nearest_with_excess(size as int, step as int),
        padded > size,
        padded % step == 0,
        padded - size <= step,
{
    proof {
        lemma_round_up_is_multiple(size as int, step as int);
    }
    let rem: usize = size % step;
    size + (step - rem)
}

/// Padding that brings `size` to a multiple of `step`.
#[inline]
pub fn needed_to_align(size: usize, step: usize) -> (needed: usize)
    requires
        step > 0,
    ensures
        needed == spec_needed_to_align(size as int, step as int),
        (needed + size) % (step as int) == 0,
        0 <= needed < step,
{
    proof {
        lemma_round_up_is_multiple(size as int, step as int);
    }
    let rem: usize = size % step;
    if rem == 0 {
        0
    } else {
        step - rem
    }
}

/// Padding that brings `size` to the next multiple of `step` above it: never 0.
#[inline]
pub fn needed_to_align_with_excess(size: usize, step: usize) -> (needed: usize)
    requires
        step > 0,
    ensures
        needed == spec_needed_to_align_with_excess(size as int, step as int),
        1 <= needed <= step,
        (needed + size) % (step as int) == 0,
        size % step == 0 ==> needed == step,
{
    proof {
        lemma_round_up_is_multiple(size as int, step as int);
    }
    let rem: usize = size % step;
    step - rem
}

} // verus!
