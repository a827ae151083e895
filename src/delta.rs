use vstd::prelude::*;
use vstd::arithmetic::power2::{lemma2_to64, lemma_pow2_strictly_increases, pow2};
use vstd::bits::lemma_u64_mul_pow2_le_max_iff_max_shr;

use crate::Error;

verus! {

/// The shift after one more varint byte; it stops at 64, past which no bit lands in a
/// word and every larger shift behaves the same.
pub open spec fn next_shift(shift: nat, inc: nat) -> nat {
    if shift + inc > 64 {
        64
    } else {
        shift + inc
    }
}

/// ORs `(byte & mask) * 2^shift` into the word `acc`, or `None` when that value does not
/// fit in a word, so that bits would be lost.
pub open spec fn shift_or(acc: u64, byte: u8, mask: u8, shift: nat) -> Option<u64> {
    let c = (byte & mask) as nat;
    if c * pow2(shift) > u64::MAX {
        None
    } else if c == 0 {
        Some(acc)
    } else {
        Some(acc | ((c as u64) << (shift as u64)))
    }
}

/// ORs the masked bits of `src`, shifted left by `*shift`, into `*dst` and advances
/// `*shift` by `shift_inc`; `InvalidPackfile`, with both left as they were, when bits
/// would be lost.
pub fn checked_shift_add(
    src: u8,
    dst: &mut u64,
    shift: &mut u64,
    shift_inc: u64,
    src_mask: u8,
) -> (r: Result<(), Error>)
    requires
        *old(shift) + shift_inc <= u64::MAX,
    ensures
        match shift_or(*old(dst), src, src_mask, *old(shift) as nat) {
            None => r == Err::<(), Error>(Error::InvalidPackfile) && *final(dst) == *old(dst)
                && *final(shift) == *old(shift),
            Some(v) => r.is_ok() && *final(dst) == v && *final(shift) == *old(shift) + shift_inc,
        },
{
    let c = (src & src_mask) as u64;
    if c != 0 {
        if *shift >= 64 {
            proof {
                lemma2_to64();
                if *shift > 64 {
                    lemma_pow2_strictly_increases(64, *shift as nat);
                }
                let p = pow2(*shift as nat);
                assert(c * p > u64::MAX) by (nonlinear_arith)
                    requires
                        c >= 1,
                        p >= 0x10000000000000000,
                ;
            }
            return Err(Error::InvalidPackfile);
        }
        proof {
            lemma_u64_mul_pow2_le_max_iff_max_shr(c, *shift, u64::MAX);
        }
        if c > (u64::MAX >> *shift) {
            return Err(Error::InvalidPackfile);
        }
        *dst = *dst | (c << *shift);
    } else {
        assert((src & src_mask) as nat * pow2(*shift as nat) == 0);
    }
    *shift = *shift + shift_inc;
    Ok(())
}

/// A size varint of a delta header starting at `i`: seven bits per byte, least
/// significant first, top bit set on every byte but the last. Gives the value and the
/// position after it.
pub open spec fn hdr_varint(d: Seq<u8>, i: nat, acc: u64, shift: nat) -> Option<(u64, nat)>
    decreases d.len() - i,
{
    if i >= d.len() {
        None
    } else {
        match shift_or(acc, d[i as int], 0x7fu8, shift) {
            None => None,
            Some(a) => if d[i as int] & 0x80u8 == 0 {
                Some((a, i + 1))
            } else {
                hdr_varint(d, i + 1, a, next_shift(shift, 7))
            },
        }
    }
}

/// Reads a size varint of a delta header at `*i`, moving `*i` past it.
pub fn read_hdr_size(delta: &[u8], i: &mut usize) -> (r: Result<u64, Error>)
    requires
        *old(i) <= delta@.len(),
    ensures
        match hdr_varint(delta@, *old(i) as nat, 0, 0) {
            None => r == Err::<u64, Error>(Error::InvalidPackfile),
            Some((v, j)) => r == Ok::<u64, Error>(v) && *final(i) == j,
        },
{
    let mut size: u64 = 0;
    let mut shift: u64 = 0;
    loop
        invariant
            *i <= delta@.len(),
            shift <= 64,
            hdr_varint(delta@, *old(i) as nat, 0, 0) == hdr_varint(
                delta@,
                *i as nat,
                size,
                shift as nat,
            ),
        decreases delta@.len() - *i,
    {
        if *i >= delta.len() {
            return Err(Error::InvalidPackfile);
        }
        let byte = delta[*i];
        match checked_shift_add(byte, &mut size, &mut shift, 7, 0x7f) {
            Err(e) => {
                return Err(e);
            },
            Ok(()) => {},
        }
        if shift > 64 {
            shift = 64;
        }
        *i = *i + 1;
        if byte & 0x80 == 0 {
            return Ok(size);
        }
    }
}

/// Whether bit `b` of `x` is set.
pub open spec fn has_bit(x: u8, b: u8) -> bool {
    (x >> b) & 1u8 == 1u8
}

/// The weight of the `k`-th little-endian byte of a copy parameter.
pub open spec fn byte_weight(k: nat) -> nat {
    if k == 0 {
        1
    } else if k == 1 {
        0x100
    } else if k == 2 {
        0x10000
    } else if k == 3 {
        0x1000000
    } else {
        0x100000000
    }
}

/// Reads the optional bytes of a copy parameter: for each `k` in `k..n` whose flag bit
/// `first + k` is set in `ins`, one byte at weight `byte_weight(k)`. Gives the value and
/// the position after the bytes read.
pub open spec fn copy_param(
    d: Seq<u8>,
    j: nat,
    ins: u8,
    first: u8,
    k: nat,
    n: nat,
    acc: nat,
) -> Option<(nat, nat)>
    decreases n - k,
{
    if k >= n {
        Some((acc, j))
    } else if has_bit(ins, (first + k) as u8) {
        if j >= d.len() {
            None
        } else {
            copy_param(d, j + 1, ins, first, k + 1, n, (acc + d[j as int] * byte_weight(k)) as nat)
        }
    } else {
        copy_param(d, j, ins, first, k + 1, n, acc)
    }
}

/// Runs the delta instructions from `i` on, appending to `out`; `None` on an
/// out-of-bounds copy, a truncated instruction or a zero-length insert.
pub open spec fn run_delta(d: Seq<u8>, i: nat, src: Seq<u8>, out: Seq<u8>) -> Option<Seq<u8>>
    decreases d.len() - i,
{
    if i >= d.len() {
        Some(out)
    } else {
        let ins = d[i as int];
        if ins & 0x80u8 != 0 {
            match copy_param(d, i + 1, ins, 0, 0, 4, 0) {
                None => None,
                Some((offset, j)) => match copy_param(d, j, ins, 4, 0, 3, 0) {
                    None => None,
                    Some((size0, k)) => {
                        let size = if size0 == 0 {
                            0x10000
                        } else {
                            size0
                        };
                        if offset + size > src.len() || k <= i || k > d.len() {
                            None
                        } else {
                            run_delta(
                                d,
                                k,
                                src,
                                out + src.subrange(offset as int, (offset + size) as int),
                            )
                        }
                    },
                },
            }
        } else {
            let n = (ins & 0x7fu8) as nat;
            if n == 0 || i + 1 + n > d.len() {
                None
            } else {
                run_delta(d, i + 1 + n, src, out + d.subrange(i + 1int, (i + 1 + n) as int))
            }
        }
    }
}

/// The target that `delta` rebuilds from `src`, or `None` if the delta is malformed or
/// the result does not have the declared target size.
pub open spec fn delta_target(delta: Seq<u8>, src: Seq<u8>) -> Option<Seq<u8>> {
    match hdr_varint(delta, 0, 0, 0) {
        None => None,
        Some((_src_size, i)) => match hdr_varint(delta, i, 0, 0) {
            None => None,
            Some((dst_size, j)) => match run_delta(delta, j, src, Seq::empty()) {
                None => None,
                Some(out) => if out.len() == dst_size {
                    Some(out)
                } else {
                    None
                },
            },
        },
    }
}

proof fn lemma_hdr_varint_bounds(d: Seq<u8>, i: nat, acc: u64, shift: nat)
    ensures
        hdr_varint(d, i, acc, shift) matches Some((v, j)) ==> i < j <= d.len(),
    decreases d.len() - i,
{
    if i < d.len() {
        if let Some(a) = shift_or(acc, d[i as int], 0x7fu8, shift) {
            if d[i as int] & 0x80u8 != 0 {
                lemma_hdr_varint_bounds(d, i + 1, a, next_shift(shift, 7));
            }
        }
    }
}

proof fn lemma_copy_param_bounds(
    d: Seq<u8>,
    j: nat,
    ins: u8,
    first: u8,
    k: nat,
    n: nat,
    acc: nat,
)
    requires
        n <= 4,
        first + n <= 8,
        k <= n,
        acc < byte_weight(k),
    ensures
        copy_param(d, j, ins, first, k, n, acc) matches Some((v, j2)) ==> j <= j2 <= j + (n - k) && v
            < byte_weight(n) && (j <= d.len() ==> j2 <= d.len()),
    decreases n - k,
{
    if k < n {
        let w = byte_weight(k);
        assert(0x100 * w == byte_weight(k + 1));
        if has_bit(ins, (first + k) as u8) {
            if j < d.len() {
                let b = d[j as int];
                assert(acc + b * w < 0x100 * w) by (nonlinear_arith)
                    requires
                        acc < w,
                        b < 0x100,
                ;
                lemma_copy_param_bounds(d, j + 1, ins, first, k + 1, n, (acc + b * w) as nat);
            }
        } else {
            lemma_copy_param_bounds(d, j, ins, first, k + 1, n, acc);
        }
    }
}

/// Reads the optional bytes of a copy parameter (see `copy_param`).
fn read_copy_param(delta: &[u8], i: &mut usize, ins: u8, first: u8, n: usize) -> (r: Result<
    usize,
    Error,
>)
    requires
        *old(i) <= delta@.len(),
        n <= 4,
        first <= 4,
    ensures
        match copy_param(delta@, *old(i) as nat, ins, first, 0, n as nat, 0) {
            None => r == Err::<usize, Error>(Error::InvalidPackfile),
            Some((v, j)) => r == Ok::<usize, Error>(v as usize) && *final(i) == j,
        },
        r.is_ok() ==> *final(i) <= delta@.len() && r.unwrap() < byte_weight(n as nat),
{
    let mut acc: usize = 0;
    let mut k: usize = 0;
    while k < n
        invariant
            k <= n <= 4,
            first <= 4,
            *i <= delta@.len(),
            acc < byte_weight(k as nat),
            copy_param(delta@, *old(i) as nat, ins, first, 0, n as nat, 0) == copy_param(
                delta@,
                *i as nat,
                ins,
                first,
                k as nat,
                n as nat,
                acc as nat,
            ),
        decreases n - k,
    {
        let bit = first + k as u8;
        if (ins >> bit) & 1 == 1 {
            if *i >= delta.len() {
                return Err(Error::InvalidPackfile);
            }
            let b = delta[*i] as usize;
            let w: usize = if k == 0 {
                1
            } else if k == 1 {
                0x100
            } else if k == 2 {
                0x10000
            } else {
                0x1000000
            };
            assert(acc + b * w < 0x100 * w) by (nonlinear_arith)
                requires
                    acc < w,
                    b < 0x100,
            ;
            acc = acc + b * w;
            *i = *i + 1;
        }
        k = k + 1;
    }
    Ok(acc)
}

/// Appends `s[a..b]` to `out`.
fn extend_from_range(out: &mut Vec<u8>, s: &[u8], a: usize, b: usize)
    requires
        a <= b <= s@.len(),
    ensures
        final(out)@ == old(out)@ + s@.subrange(a as int, b as int),
{
    let ghost start = out@;
    let mut k: usize = a;
    while k < b
        invariant
            a <= k <= b <= s@.len(),
            out@ == start + s@.subrange(a as int, k as int),
        decreases b - k,
    {
        out.push(s[k]);
        assert(s@.subrange(a as int, k + 1) =~= s@.subrange(a as int, k as int).push(s@[k as int]));
        k += 1;
    }
}

/// Rebuilds a target buffer from `src` by running the copy and insert instructions of
/// `delta`; `InvalidPackfile` on any malformed delta.
pub fn reconstruct(delta: &[u8], src: &[u8]) -> (r: Result<Vec<u8>, Error>)
    ensures
        match delta_target(delta@, src@) {
            None => r == Err::<Vec<u8>, Error>(Error::InvalidPackfile),
            Some(t) => r.is_ok() && r.unwrap()@ == t,
        },
{
    let mut i: usize = 0;
    proof {
        lemma_hdr_varint_bounds(delta@, 0, 0, 0);
    }
    let _src_buf_size = match read_hdr_size(delta, &mut i) {
        Ok(v) => v,
        Err(e) => return Err(e),
    };
    proof {
        lemma_hdr_varint_bounds(delta@, i as nat, 0, 0);
    }
    let dst_buf_size = match read_hdr_size(delta, &mut i) {
        Ok(v) => v,
        Err(e) => return Err(e),
    };
    let ghost start = i;
    let mut dst: Vec<u8> = Vec::new();
    while i < delta.len()
        invariant
            start <= i <= delta@.len(),
            delta_target(delta@, src@) == match run_delta(
                delta@,
                start as nat,
                src@,
                Seq::empty(),
            ) {
                None => None,
                Some(out) => if out.len() == dst_buf_size {
                    Some(out)
                } else {
                    None
                },
            },
            run_delta(delta@, start as nat, src@, Seq::empty()) == run_delta(
                delta@,
                i as nat,
                src@,
                dst@,
            ),
        decreases delta@.len() - i,
    {
        let ghost i0 = i;
        let instruction = delta[i];
        i = i + 1;
        if instruction & 0x80 != 0 {
            proof {
                lemma_copy_param_bounds(delta@, i as nat, instruction, 0, 0, 4, 0);
            }
            let offset = match read_copy_param(delta, &mut i, instruction, 0, 4) {
                Ok(v) => v,
                Err(e) => return Err(e),
            };
            proof {
                lemma_copy_param_bounds(delta@, i as nat, instruction, 4, 0, 3, 0);
            }
            let mut size = match read_copy_param(delta, &mut i, instruction, 4, 3) {
                Ok(v) => v,
                Err(e) => return Err(e),
            };
            if size == 0 {
                size = 0x10000;
            }
            if offset > src.len() || size > src.len() - offset {
                return Err(Error::InvalidPackfile);
            }
            extend_from_range(&mut dst, src, offset, offset + size);
        } else {
            let len = (instruction & 0x7f) as usize;
            if len == 0 || len > delta.len() - i {
                return Err(Error::InvalidPackfile);
            }
            extend_from_range(&mut dst, delta, i, i + len);
            i = i + len;
        }
    }
    if dst.len() as u64 != dst_buf_size {
        return Err(Error::InvalidPackfile);
    }
    Ok(dst)
}

} // verus!
