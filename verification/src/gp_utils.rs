use vstd::prelude::*;

verus! {

/// `a + b` wrapped once around `module`: the sum, less `module` where it
/// reaches `module`.
pub open spec fn wrapped_sum(a: int, b: int, module: int) -> int {
    if b == 0 {
        a
    } else if a + b >= module {
        a + b - module
    } else {
        a + b
    }
}

/// Adds `b` to `a` modulo `module`, without overflow.
pub fn sum_mod(a: u32, b: u32, module: u32) -> (r: u32)
    requires
        b <= module,
    ensures
        r == wrapped_sum(a as int, b as int, module as int),
{
    if b == 0 {
        return a;
    }
    let b = module - b;
    if a >= b {
        return a - b;
    }
    module - b + a
}

/// For a residue `a` and an addend no larger than the module, `sum_mod` is
/// addition modulo `module`.
pub proof fn lemma_sum_mod_is_modular(a: int, b: int, module: int)
    requires
        0 <= a < module,
        0 <= b <= module,
    ensures
        wrapped_sum(a, b, module) == (a + b) % module,
        0 <= wrapped_sum(a, b, module) < module,
{
    if b == 0 {
        vstd::arithmetic::div_mod::lemma_small_mod(a as nat, module as nat);
    } else if a + b >= module {
        vstd::arithmetic::div_mod::lemma_mod_sub_multiples_vanish(a + b, module);
        vstd::arithmetic::div_mod::lemma_small_mod((a + b - module) as nat, module as nat);
    } else {
        vstd::arithmetic::div_mod::lemma_small_mod((a + b) as nat, module as nat);
    }
}

/// Running checksum of `bytes`, started from `sum`: each byte added in turn
/// modulo `u32::MAX`.
pub open spec fn checksum_from(sum: int, bytes: Seq<u8>) -> int
    decreases bytes.len(),
{
    if bytes.len() == 0 {
        sum
    } else {
        wrapped_sum(checksum_from(sum, bytes.drop_last()), bytes.last() as int, u32::MAX as int)
    }
}

/// Sum of the bytes as integers.
pub open spec fn byte_total(bytes: Seq<u8>) -> int
    decreases bytes.len(),
{
    if bytes.len() == 0 {
        0
    } else {
        byte_total(bytes.drop_last()) + bytes.last()
    }
}

/// Adds the bytes one by one to the running checksum `sum`.
pub fn checksum_update(sum: u32, bytes: &[u8]) -> (r: u32)
    ensures
        r == checksum_from(sum as int, bytes@),
{
    let mut acc = sum;
    let mut i: usize = 0;
    while i < bytes.len()
        invariant
            i <= bytes.len(),
            acc == checksum_from(sum as int, bytes@.subrange(0, i as int)),
        decreases bytes.len() - i,
    {
        proof {
            let next = bytes@.subrange(0, i + 1);
            assert(next.drop_last() =~= bytes@.subrange(0, i as int));
        }
        acc = sum_mod(acc, bytes[i] as u32, u32::MAX);
        i += 1;
    }
    assert(bytes@.subrange(0, i as int) =~= bytes@);
    acc
}

/// Checksum of `bytes`: their sum modulo `u32::MAX`, accumulated from zero.
pub fn checksum(bytes: &[u8]) -> (r: u32)
    ensures
        r == checksum_from(0, bytes@),
{
    checksum_update(0, bytes)
}

/// The checksum of a whole is the checksum of its second part continued from
/// that of its first: reading in chunks gives the same result.
pub proof fn lemma_checksum_chunks(sum: int, first: Seq<u8>, second: Seq<u8>)
    ensures
        checksum_from(sum, first + second) == checksum_from(checksum_from(sum, first), second),
    decreases second.len(),
{
    if second.len() == 0 {
        assert(first + second =~= first);
    } else {
        lemma_checksum_chunks(sum, first, second.drop_last());
        assert((first + second).drop_last() =~= first + second.drop_last());
    }
}

/// From zero, the checksum is the sum of the bytes modulo `u32::MAX`.
pub proof fn lemma_checksum_is_total_mod(bytes: Seq<u8>)
    ensures
        checksum_from(0, bytes) == byte_total(bytes) % (u32::MAX as int),
    decreases bytes.len(),
{
    let m = u32::MAX as int;
    if bytes.len() == 0 {
        vstd::arithmetic::div_mod::lemma_small_mod(0, m as nat);
    } else {
        let init = bytes.drop_last();
        lemma_checksum_is_total_mod(init);
        lemma_byte_total_nonneg(init);
        let a = byte_total(init) % m;
        vstd::arithmetic::div_mod::lemma_mod_bound(byte_total(init), m);
        lemma_sum_mod_is_modular(a, bytes.last() as int, m);
        vstd::arithmetic::div_mod::lemma_add_mod_noop(byte_total(init), bytes.last() as int, m);
        vstd::arithmetic::div_mod::lemma_mod_twice(bytes.last() as int, m);
        vstd::arithmetic::div_mod::lemma_small_mod(bytes.last() as nat, m as nat);
    }
}

proof fn lemma_byte_total_nonneg(bytes: Seq<u8>)
    ensures
        byte_total(bytes) >= 0,
    decreases bytes.len(),
{
    if bytes.len() > 0 {
        lemma_byte_total_nonneg(bytes.drop_last());
    }
}

} // verus!
