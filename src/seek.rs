use vstd::prelude::*;
use crate::error::EdfError;

verus! {

/// Where a seek counts from.
#[derive(Debug, Clone, Copy, PartialEq, Eq, Structural)]
pub enum Whence {
    /// From the first sample.
    Start,
    /// From the current position.
    Current,
    /// From one past the last sample.
    End,
}

/// The sample position that a seek asks for, before it is checked.
pub open spec fn seek_target(whence: Whence, current: int, end: int, offset: int) -> int {
    match whence {
        Whence::Start => offset,
        Whence::Current => current + offset,
        Whence::End => end + offset,
    }
}

/// The new sample position of a signal with `spr` samples per record in a file of
/// `records` records: the target counted from `whence`, when it lies in a record of the
/// file; else `SeekOutOfRange`.
pub fn seek_position(spr: u32, records: u64, current: u64, offset: i64, whence: Whence) -> (r:
    Result<u64, EdfError>)
    requires
        spr > 0,
        records * spr <= u64::MAX,
        current <= records * spr,
    ensures
        ({
            let t = seek_target(whence, current as int, records * spr, offset as int);
            if 0 <= t && t / (spr as int) < records {
                r == Ok::<u64, EdfError>(t as u64)
            } else {
                r == Err::<u64, EdfError>(EdfError::SeekOutOfRange)
            }
        }),
{
    let end = records as i128 * spr as i128;
    let base: i128 = match whence {
        Whence::Start => 0,
        Whence::Current => current as i128,
        Whence::End => end,
    };
    let t = base + offset as i128;
    if t < 0 || t >= end {
        proof {
            if t >= end {
                vstd::arithmetic::div_mod::lemma_div_is_ordered(end as int, t as int, spr as int);
                vstd::arithmetic::div_mod::lemma_div_multiples_vanish(records as int, spr as int);
            }
        }
        return Err(EdfError::SeekOutOfRange);
    }
    proof {
        vstd::arithmetic::div_mod::lemma_div_is_ordered(t as int, end as int, spr as int);
        vstd::arithmetic::div_mod::lemma_div_multiples_vanish(records as int, spr as int);
        let ti = t as int;
        let si = spr as int;
        if ti / si >= records {
            vstd::arithmetic::div_mod::lemma_fundamental_div_mod(ti, si);
            assert(ti >= records * si) by (nonlinear_arith)
                requires
                    ti == si * (ti / si) + ti % si,
                    ti % si >= 0,
                    ti / si >= records,
                    si > 0,
            ;
        }
    }
    Ok(t as u64)
}

/// The record that holds time `t` and the position within it of the sample of a signal
/// with `spr` samples per record that was taken at or just before `t`; `SeekOutOfRange`
/// when `t` lies before the file or at or after its end.
pub fn locate_time(t: i64, duration: i64, spr: u32, records: u64) -> (r: Result<(u64, u32), EdfError>)
    requires
        duration > 0,
        spr > 0,
    ensures
        t < 0 || t / duration >= records ==> r == Err::<(u64, u32), EdfError>(EdfError::SeekOutOfRange),
        !(t < 0 || t / duration >= records) ==> r is Ok,
        r matches Ok((rec, off)) ==> rec == t / duration && off == (t % duration) * spr / (
        duration as int),
        r matches Ok((rec, off)) ==> off < spr,
{
    if t < 0 {
        return Err(EdfError::SeekOutOfRange);
    }
    let rec = t / duration;
    if rec as u64 >= records {
        return Err(EdfError::SeekOutOfRange);
    }
    let m = (t % duration) as u128;
    assert(m * spr <= 0x7FFF_FFFF_FFFF_FFFF * 0xFFFF_FFFF) by (nonlinear_arith)
        requires
            m < duration,
            duration <= 0x7FFF_FFFF_FFFF_FFFF,
            spr <= 0xFFFF_FFFF,
    ;
    let off = m * spr as u128 / duration as u128;
    assert(off < spr) by (nonlinear_arith)
        requires
            off == m * spr / (duration as int),
            m < duration,
            duration > 0,
            spr > 0,
    {
        vstd::arithmetic::div_mod::lemma_div_by_multiple_is_strongly_ordered(
            (m * spr) as int,
            (duration * spr) as int,
            spr as int,
            duration as int,
        );
    }
    Ok((rec as u64, off as u32))
}

/// Seeking by time lands on the sample that sequential counting reaches at that time:
/// `record * spr + offset` is `floor(t * spr / duration)`.
pub proof fn lemma_time_seek_is_sequential(t: int, duration: int, spr: int)
    requires
        t >= 0,
        duration > 0,
        spr >= 0,
    ensures
        (t / duration) * spr + (t % duration) * spr / duration == t * spr / duration,
{
    let q = t / duration;
    let m = t % duration;
    vstd::arithmetic::div_mod::lemma_fundamental_div_mod(t, duration);
    assert(t * spr == (q * spr) * duration + m * spr) by (nonlinear_arith)
        requires
            t == duration * q + m,
    ;
    let a = (m * spr) / duration;
    let r = (m * spr) % duration;
    vstd::arithmetic::div_mod::lemma_fundamental_div_mod(m * spr, duration);
    assert(t * spr == (q * spr + a) * duration + r) by (nonlinear_arith)
        requires
            t * spr == (q * spr) * duration + m * spr,
            m * spr == duration * a + r,
    ;
    vstd::arithmetic::div_mod::lemma_fundamental_div_mod_converse(t * spr, duration, q * spr + a, r);
}

} // verus!
