use vstd::prelude::*;
use crate::decimal::{
    all_digits, digit_value, digits, is_digit, lemma_digits, lemma_padded_digits, padded_digits,
    parse_digits, pow10, push_digits, push_padded_digits,
};
use crate::error::EdfError;

verus! {

/// Time units (100 ns) per second.
pub const TICKS_PER_SECOND: u64 = 10_000_000;
/// The byte that separates an onset from a duration.
pub const DURATION_MARK: u8 = 0x15;
/// The byte that ends the time stamp and the description.
pub const FIELD_MARK: u8 = 0x14;
/// The most digits accepted before the decimal point of a time.
pub const MAX_WHOLE_DIGITS: usize = 12;
/// The digits after the decimal point that a time stamp carries.
pub const FRACTION_DIGITS: u32 = 7;

/// A timed text event.
#[derive(Debug, Clone, PartialEq, Eq)]
pub struct Annotation {
    /// Start, in 100 ns units from the start of the recording.
    pub onset: i64,
    /// Length in 100 ns units, if any.
    pub duration: Option<i64>,
    /// Printable text.
    pub description: Vec<u8>,
}

/// What an annotation means: onset, duration and text.
pub type AnnotationModel = (int, Option<int>, Seq<u8>);

impl Annotation {
    pub open spec fn model(self) -> AnnotationModel {
        (
            self.onset as int,
            match self.duration {
                Some(d) => Some(d as int),
                None => None,
            },
            self.description@,
        )
    }
}

/// Whether a byte may appear in a description: no control byte.
pub open spec fn is_text_byte(b: u8) -> bool {
    b >= 0x20 && b != 0x7f
}

/// The largest magnitude that a time field can take.
pub open spec fn max_ticks() -> int {
    0x7fff_ffff_ffff_ffff
}

/// Whether an annotation can be written and read back.
pub open spec fn valid_model(a: AnnotationModel) -> bool {
    &&& -max_ticks() <= a.0 <= max_ticks()
    &&& match a.1 {
        Some(d) => 0 <= d <= max_ticks(),
        None => true,
    }
    &&& forall|i: int| 0 <= i < a.2.len() ==> is_text_byte(#[trigger] a.2[i])
}

/// The text of a non-negative time in 100 ns units: whole seconds, then, when the time
/// is not a whole number of seconds, a point and exactly seven decimals.
pub open spec fn time_text(t: nat) -> Seq<u8> {
    let whole = digits(t / TICKS_PER_SECOND as nat);
    if t % (TICKS_PER_SECOND as nat) == 0 {
        whole
    } else {
        whole + seq![46u8] + padded_digits(t % (TICKS_PER_SECOND as nat), 7)
    }
}

/// The encoding of one annotation: signed onset, optional duration, description, and
/// the terminating separator and null byte.
#[verifier::opaque]
pub open spec fn tal(a: AnnotationModel) -> Seq<u8> {
    let sign: u8 = if a.0 < 0 {
        45u8
    } else {
        43u8
    };
    let mag: nat = if a.0 < 0 {
        (-a.0) as nat
    } else {
        a.0 as nat
    };
    let dur = match a.1 {
        Some(d) => seq![0x15u8] + time_text(d as nat),
        None => Seq::empty(),
    };
    seq![sign] + time_text(mag) + dur + seq![0x14u8] + a.2 + seq![0x14u8, 0u8]
}

/// The first index at or after `i` that does not hold a digit.
pub open spec fn digit_run_end(s: Seq<u8>, i: int) -> int
    decreases s.len() - i,
{
    if i < 0 || i >= s.len() || !is_digit(s[i]) {
        i
    } else {
        digit_run_end(s, i + 1)
    }
}

/// The first index at or after `i` that holds `b`, or the length of `s`.
pub open spec fn find_byte(s: Seq<u8>, i: int, b: u8) -> int
    decreases s.len() - i,
{
    if i < 0 || i >= s.len() || s[i] == b {
        i
    } else {
        find_byte(s, i + 1, b)
    }
}

/// Reads a time at `i`: one to twelve digits, then optionally a point and one to seven
/// digits. Gives the time in 100 ns units and the index after it.
pub open spec fn parse_time(s: Seq<u8>, i: int) -> Option<(int, int)> {
    let e = digit_run_end(s, i);
    if e == i || e - i > 12 {
        None
    } else {
        let whole = digit_value(s.subrange(i, e)) * TICKS_PER_SECOND;
        if e < s.len() && s[e] == 46u8 {
            let f = digit_run_end(s, e + 1);
            let n = f - (e + 1);
            if n == 0 || n > 7 {
                None
            } else {
                let t = whole + digit_value(s.subrange(e + 1, f)) * pow10((7 - n) as nat);
                if t > max_ticks() {
                    None
                } else {
                    Some((t, f))
                }
            }
        } else if whole > max_ticks() {
            None
        } else {
            Some((whole, e))
        }
    }
}

/// Reads one annotation at `i`; gives it and the index after its null byte.
#[verifier::opaque]
pub open spec fn parse_tal(s: Seq<u8>, i: int) -> Option<(AnnotationModel, int)> {
    if i < 0 || i >= s.len() || (s[i] != 43u8 && s[i] != 45u8) {
        None
    } else {
        match parse_time(s, i + 1) {
            None => None,
            Some((mag, e1)) => {
                let onset = if s[i] == 45u8 {
                    -mag
                } else {
                    mag
                };
                let dur: Option<Option<(int, int)>> = if e1 < s.len() && s[e1] == 0x15u8 {
                    match parse_time(s, e1 + 1) {
                        None => None,
                        Some(p) => Some(Some(p)),
                    }
                } else {
                    Some(None)
                };
                match dur {
                    None => None,
                    Some(d) => {
                        let e2 = match d {
                            Some((_, e)) => e,
                            None => e1,
                        };
                        let end = find_byte(s, e2 + 1, 0x14u8);
                        if e2 < s.len() && s[e2] == 0x14u8 && end + 1 < s.len() && s[end + 1]
                            == 0u8 && forall|k: int|
                            e2 + 1 <= k < end ==> is_text_byte(#[trigger] s[k]) {
                            let duration = match d {
                                Some((t, _)) => Some(t),
                                None => None,
                            };
                            Some(((onset, duration, s.subrange(e2 + 1, end)), end + 2))
                        } else {
                            None
                        }
                    },
                }
            },
        }
    }
}

/// Appends the text of a non-negative time.
fn push_time(out: &mut Vec<u8>, t: u64)
    ensures
        final(out)@ == old(out)@ + time_text(t as nat),
{
    push_digits(out, t / TICKS_PER_SECOND);
    let frac = t % TICKS_PER_SECOND;
    if frac != 0 {
        out.push(46u8);
        push_padded_digits(out, frac, FRACTION_DIGITS);
    }
    assert(final(out)@ =~= old(out)@ + time_text(t as nat));
}

/// Checks that an annotation can be encoded: its times fit the format and its text holds
/// no control byte.
pub fn check_annotation(a: &Annotation) -> (r: Result<(), EdfError>)
    ensures
        r is Ok <==> valid_model(a.model()),
        r is Err ==> (-max_ticks() <= a.onset && (a.duration is Some ==> a.duration->Some_0 >= 0)
            <==> r == Err::<(), EdfError>(EdfError::ForbiddenControlByte)),
        r is Err ==> (r == Err::<(), EdfError>(EdfError::ForbiddenControlByte) || r == Err::<
            (),
            EdfError,
        >(EdfError::InvalidRange)),
{
    if a.onset == i64::MIN {
        return Err(EdfError::InvalidRange);
    }
    match a.duration {
        Some(d) => {
            if d < 0 {
                return Err(EdfError::InvalidRange);
            }
        },
        None => {},
    }
    let mut i: usize = 0;
    while i < a.description.len()
        invariant
            i <= a.description@.len(),
            a.onset != i64::MIN,
            a.duration is Some ==> a.duration->Some_0 >= 0,
            forall|k: int| 0 <= k < i ==> is_text_byte(#[trigger] a.description@[k]),
        decreases a.description@.len() - i,
    {
        let b = a.description[i];
        if b < 0x20 || b == 0x7f {
            assert(!is_text_byte(a.model().2[i as int]));
            return Err(EdfError::ForbiddenControlByte);
        }
        i = i + 1;
    }
    Ok(())
}

/// Appends the encoding of an annotation, or leaves `out` as it was and says why the
/// annotation cannot be encoded.
pub fn encode_annotation(out: &mut Vec<u8>, a: &Annotation) -> (r: Result<(), EdfError>)
    ensures
        r is Ok <==> valid_model(a.model()),
        r is Ok ==> final(out)@ == old(out)@ + tal(a.model()),
        r is Err ==> final(out)@ == old(out)@,
        r is Err ==> (-max_ticks() <= a.onset && (a.duration is Some ==> a.duration->Some_0 >= 0)
            <==> r == Err::<(), EdfError>(EdfError::ForbiddenControlByte)),
        r is Err ==> (r == Err::<(), EdfError>(EdfError::ForbiddenControlByte) || r == Err::<
            (),
            EdfError,
        >(EdfError::InvalidRange)),
{
    let checked = check_annotation(a);
    if checked.is_err() {
        return checked;
    }
    proof {
        reveal(tal);
    }
    let ghost start = out@;
    if a.onset < 0 {
        out.push(45u8);
        push_time(out, (-a.onset) as u64);
    } else {
        out.push(43u8);
        push_time(out, a.onset as u64);
    }
    match a.duration {
        Some(d) => {
            out.push(DURATION_MARK);
            push_time(out, d as u64);
        },
        None => {},
    }
    out.push(FIELD_MARK);
    let mut i: usize = 0;
    let ghost mid = out@;
    while i < a.description.len()
        invariant
            i <= a.description@.len(),
            out@ == mid + a.description@.subrange(0, i as int),
        decreases a.description@.len() - i,
    {
        out.push(a.description[i]);
        assert(out@ =~= mid + a.description@.subrange(0, i + 1));
        i = i + 1;
    }
    out.push(FIELD_MARK);
    out.push(0u8);
    assert(a.description@.subrange(0, a.description@.len() as int) =~= a.description@);
    assert(out@ =~= start + tal(a.model()));
    Ok(())
}

/// The index of the first non-digit at or after `i`.
fn scan_digits(s: &Vec<u8>, i: usize) -> (r: usize)
    requires
        i <= s@.len(),
    ensures
        r == digit_run_end(s@, i as int),
        i <= r <= s@.len(),
        all_digits(s@.subrange(i as int, r as int)),
{
    let mut k: usize = i;
    while k < s.len() && s[k] >= 48 && s[k] <= 57
        invariant
            i <= k <= s@.len(),
            digit_run_end(s@, i as int) == digit_run_end(s@, k as int),
            all_digits(s@.subrange(i as int, k as int)),
        decreases s@.len() - k,
    {
        assert(all_digits(s@.subrange(i as int, k + 1))) by {
            assert forall|m: int| 0 <= m < k + 1 - i implies is_digit(
                #[trigger] s@.subrange(i as int, k + 1)[m],
            ) by {
                if m < k - i {
                    assert(s@.subrange(i as int, k + 1)[m] == s@.subrange(i as int, k as int)[m]);
                }
            }
        }
        k = k + 1;
    }
    k
}

/// The index of the first `b` at or after `i`, or the length of `s`.
fn find(s: &Vec<u8>, i: usize, b: u8) -> (r: usize)
    requires
        i <= s@.len(),
    ensures
        r == find_byte(s@, i as int, b),
        i <= r <= s@.len(),
        forall|k: int| i <= k < r ==> s@[k] != b,
{
    let mut k: usize = i;
    while k < s.len() && s[k] != b
        invariant
            i <= k <= s@.len(),
            find_byte(s@, i as int, b) == find_byte(s@, k as int, b),
            forall|m: int| i <= m < k ==> s@[m] != b,
        decreases s@.len() - k,
    {
        k = k + 1;
    }
    k
}

fn pow10_exec(n: u32) -> (r: u64)
    requires
        n <= 7,
    ensures
        r == pow10(n as nat),
        r <= 10_000_000,
    decreases n,
{
    proof {
        reveal_with_fuel(pow10, 8);
    }
    if n == 0 {
        1
    } else {
        10 * pow10_exec(n - 1)
    }
}

/// Reads the time at `i`, as `parse_time` describes.
fn read_time(s: &Vec<u8>, i: usize) -> (r: Option<(u64, usize)>)
    requires
        i <= s@.len(),
    ensures
        match r {
            None => parse_time(s@, i as int) is None,
            Some((t, e)) => parse_time(s@, i as int) == Some((t as int, e as int)) && i < e <= s@.len(),
        },
{
    let e = scan_digits(s, i);
    if e == i || e - i > MAX_WHOLE_DIGITS {
        return None;
    }
    proof {
        lemma_pow10_12();
    }
    let whole = parse_digits(s, i, e);
    proof {
        crate::decimal::lemma_digit_value_bound(s@.subrange(i as int, e as int));
        crate::decimal::lemma_pow10_monotone((e - i) as nat, 12);
    }
    let whole_t = whole * TICKS_PER_SECOND;
    if e < s.len() && s[e] == 46u8 {
        let f = scan_digits(s, e + 1);
        let n = f - (e + 1);
        if n == 0 || n > 7 {
            return None;
        }
        let frac = parse_digits(s, e + 1, f);
        proof {
            crate::decimal::lemma_digit_value_bound(s@.subrange(e + 1, f as int));
            crate::decimal::lemma_pow10_monotone(n as nat, 7);
            reveal_with_fuel(pow10, 8);
            crate::decimal::lemma_pow10_product(n as nat, (7 - n) as nat);
        }
        let scale = pow10_exec(7 - n as u32);
        assert(frac * scale < 10_000_000) by (nonlinear_arith)
            requires
                frac < pow10(n as nat),
                scale == pow10((7 - n) as nat),
                pow10(n as nat) * pow10((7 - n) as nat) == 10_000_000,
        {
        }
        let t = whole_t + frac * scale;
        if t > 0x7fff_ffff_ffff_ffff {
            return None;
        }
        Some((t, f))
    } else {
        if whole_t > 0x7fff_ffff_ffff_ffff {
            return None;
        }
        Some((whole_t, e))
    }
}

/// The bytes from `from` to `to`, when none of them is a control byte.
fn read_text(s: &Vec<u8>, from: usize, to: usize) -> (r: Option<Vec<u8>>)
    requires
        from <= to <= s@.len(),
    ensures
        match r {
            Some(v) => v@ == s@.subrange(from as int, to as int) && forall|m: int|
                from <= m < to ==> is_text_byte(#[trigger] s@[m]),
            None => !(forall|m: int| from <= m < to ==> is_text_byte(#[trigger] s@[m])),
        },
{
    let mut out: Vec<u8> = Vec::new();
    let mut k: usize = from;
    while k < to
        invariant
            from <= k <= to <= s@.len(),
            out@ == s@.subrange(from as int, k as int),
            forall|m: int| from <= m < k ==> is_text_byte(#[trigger] s@[m]),
        decreases to - k,
    {
        let b = s[k];
        if b < 0x20 || b == 0x7f {
            assert(!is_text_byte(s@[k as int]));
            return None;
        }
        out.push(b);
        assert(out@ =~= s@.subrange(from as int, k + 1));
        k = k + 1;
    }
    Some(out)
}

/// Reads the annotation that starts at `i`, as `parse_tal` describes; gives it and the
/// index after its null byte.
#[verifier::rlimit(40)]
pub fn decode_annotation(s: &Vec<u8>, i: usize) -> (r: Result<(Annotation, usize), EdfError>)
    ensures
        match r {
            Ok((a, e)) => parse_tal(s@, i as int) == Some((a.model(), e as int)) && i < e <= s@.len(),
            Err(err) => parse_tal(s@, i as int) is None && err == EdfError::MalformedAnnotationText,
        },
{
    proof {
        reveal(parse_tal);
    }
    if i >= s.len() || (s[i] != 43u8 && s[i] != 45u8) {
        return Err(EdfError::MalformedAnnotationText);
    }
    let (mag, e1) = match read_time(s, i + 1) {
        None => {
            return Err(EdfError::MalformedAnnotationText);
        },
        Some(p) => p,
    };
    let onset: i64 = if s[i] == 45u8 {
        -(mag as i64)
    } else {
        mag as i64
    };
    let mut duration: Option<i64> = None;
    let mut e2 = e1;
    if e1 < s.len() && s[e1] == DURATION_MARK {
        match read_time(s, e1 + 1) {
            None => {
                return Err(EdfError::MalformedAnnotationText);
            },
            Some((t, e)) => {
                duration = Some(t as i64);
                e2 = e;
            },
        }
    }
    if e2 >= s.len() || s[e2] != FIELD_MARK {
        return Err(EdfError::MalformedAnnotationText);
    }
    let end = find(s, e2 + 1, FIELD_MARK);
    if end >= s.len() - 1 || s[end + 1] != 0u8 {
        return Err(EdfError::MalformedAnnotationText);
    }
    let description = match read_text(s, e2 + 1, end) {
        None => {
            return Err(EdfError::MalformedAnnotationText);
        },
        Some(d) => d,
    };
    let a = Annotation { onset, duration, description };
    assert(parse_time(s@, i + 1) == Some((mag as int, e1 as int)));
    assert(a.model().0 == (if s@[i as int] == 45u8 { -(mag as int) } else { mag as int }));
    assert(find_byte(s@, e2 + 1, 0x14u8) == end);
    assert(a.model().2 == s@.subrange(e2 + 1, end as int));
    assert(a.model().1 == match duration {
        Some(d) => Some(d as int),
        None => None::<int>,
    });
    Ok((a, end + 2))
}

/// The annotations held in a block from index `i` on: one after another until a null
/// byte, the end of the block, or text that does not parse.
pub open spec fn block_annotations(s: Seq<u8>, i: int) -> Seq<AnnotationModel>
    decreases s.len() - i,
{
    if i < 0 || i >= s.len() || s[i] == 0u8 {
        Seq::empty()
    } else {
        match parse_tal(s, i) {
            Some((a, e)) => if i < e <= s.len() {
                seq![a] + block_annotations(s, e)
            } else {
                Seq::empty()
            },
            None => Seq::empty(),
        }
    }
}

pub open spec fn models(v: Seq<Annotation>) -> Seq<AnnotationModel> {
    v.map_values(|a: Annotation| a.model())
}

/// Reads every annotation of an annotation block, as `block_annotations` describes.
pub fn decode_block(s: &Vec<u8>) -> (r: Vec<Annotation>)
    ensures
        models(r@) == block_annotations(s@, 0),
{
    let mut out: Vec<Annotation> = Vec::new();
    let mut pos: usize = 0;
    while pos < s.len() && s[pos] != 0u8
        invariant
            pos <= s@.len(),
            models(out@) + block_annotations(s@, pos as int) == block_annotations(s@, 0),
        decreases s@.len() - pos,
    {
        match decode_annotation(s, pos) {
            Ok((a, e)) => {
                assert(models(out@.push(a)) =~= models(out@) + seq![a.model()]);
                assert(e > pos);
                out.push(a);
                assert(models(out@) + block_annotations(s@, e as int) =~= block_annotations(s@, 0));
                pos = e;
            },
            Err(_) => {
                assert(models(out@) =~= block_annotations(s@, 0));
                return out;
            },
        }
    }
    assert(models(out@) =~= block_annotations(s@, 0));
    out
}

proof fn lemma_run_end(s: Seq<u8>, p: int, e: int)
    requires
        0 <= p <= e <= s.len(),
        forall|q: int| p <= q < e ==> is_digit(#[trigger] s[q]),
        e == s.len() || !is_digit(s[e]),
    ensures
        digit_run_end(s, p) == e,
    decreases e - p,
{
    if p < e {
        lemma_run_end(s, p + 1, e);
    }
}

proof fn lemma_find(s: Seq<u8>, p: int, e: int, b: u8)
    requires
        0 <= p <= e < s.len(),
        forall|q: int| p <= q < e ==> #[trigger] s[q] != b,
        s[e] == b,
    ensures
        find_byte(s, p, b) == e,
    decreases e - p,
{
    if p < e {
        lemma_find(s, p + 1, e, b);
    }
}

/// The decimal text of a number below `10^k` has at most `k` digits.
pub proof fn lemma_digits_len(n: nat, k: nat)
    requires
        k >= 1,
        n < pow10(k),
    ensures
        digits(n).len() <= k,
    decreases n,
{
    if n >= 10 {
        assert(k >= 2) by {
            if k == 1 {
                reveal_with_fuel(pow10, 2);
            }
        }
        assert(n / 10 < pow10((k - 1) as nat));
        lemma_digits_len(n / 10, (k - 1) as nat);
    }
}

/// A time's text, followed by a byte that is neither a digit nor a point, reads back as
/// that time.
#[verifier::rlimit(40)]
proof fn lemma_time_round_trip(s: Seq<u8>, p: int, t: nat)
    requires
        0 <= p,
        t <= max_ticks(),
        p + time_text(t).len() < s.len(),
        s.subrange(p, p + time_text(t).len()) == time_text(t),
        !is_digit(s[p + time_text(t).len()]),
        s[p + time_text(t).len()] != 46u8,
    ensures
        parse_time(s, p) == Some((t as int, p + time_text(t).len())),
{
    lemma_pow10_12();
    let whole = t / (TICKS_PER_SECOND as nat);
    let frac = t % (TICKS_PER_SECOND as nat);
    let w = digits(whole);
    lemma_digits(whole);
    assert(whole < 1_000_000_000_000);
    lemma_digits_len(whole, 12);
    let tt = time_text(t);
    let e = p + w.len();
    assert(tt.subrange(0, w.len() as int) =~= w);
    assert(s.subrange(p, e) =~= w) by {
        assert(s.subrange(p, e) =~= s.subrange(p, p + tt.len()).subrange(0, w.len() as int));
    }
    assert forall|q: int| p <= q < e implies is_digit(#[trigger] s[q]) by {
        assert(s[q] == w[q - p]);
    }
    if frac == 0 {
        lemma_run_end(s, p, e);
        assert(whole * TICKS_PER_SECOND == t);
        assert(digit_value(s.subrange(p, e)) == whole);
        assert(e == p + tt.len());
        assert(!(e < s.len() && s[e] == 46u8));
        assert(digit_run_end(s, p) == e);
        assert(e - p <= 12 && e != p);
        assert(parse_time(s, p) == Some((t as int, e)));
    } else {
        let f = padded_digits(frac, 7);
        lemma_padded_digits(frac, 7);
        assert(s[e] == tt[w.len() as int]);
        assert(s[e] == 46u8);
        lemma_run_end(s, p, e);
        let fe = e + 8;
        assert(s.subrange(e + 1, fe) =~= f) by {
            assert(s.subrange(e + 1, fe) =~= s.subrange(p, p + tt.len()).subrange(w.len() + 1int, w.len() + 8int));
            assert(tt.subrange(w.len() + 1int, w.len() + 8int) =~= f);
        }
        assert forall|q: int| e + 1 <= q < fe implies is_digit(#[trigger] s[q]) by {
            assert(s[q] == f[q - e - 1]);
        }
        lemma_run_end(s, e + 1, fe);
        assert(pow10(0) == 1);
        assert(whole * TICKS_PER_SECOND + frac == t);
        assert(digit_value(s.subrange(p, e)) == whole);
        assert(digit_value(s.subrange(e + 1, fe)) == frac);
        assert(fe == p + tt.len());
        assert(digit_run_end(s, e + 1) == fe);
        assert(e - p <= 12 && e != p);
        let fv = digit_value(s.subrange(e + 1, fe));
        assert(fv * pow10(0) == frac) by (nonlinear_arith)
            requires
                fv == frac,
                pow10(0) == 1,
        ;
        assert(parse_time(s, p) == Some((t as int, fe)));
    }
}

/// Decoding the encoding of a valid annotation, wherever it stands and whatever follows
/// it, gives that annotation back and stops right after its encoding.
#[verifier::rlimit(80)]
pub proof fn lemma_annotation_round_trip(pre: Seq<u8>, a: AnnotationModel, rest: Seq<u8>)
    requires
        valid_model(a),
    ensures
        parse_tal(pre + tal(a) + rest, pre.len() as int) == Some(
            (a, pre.len() + tal(a).len() as int),
        ),
{
    reveal(tal);
    reveal(parse_tal);
    let s = pre + tal(a) + rest;
    let b: int = pre.len() as int;
    let sign: u8 = if a.0 < 0 {
        45u8
    } else {
        43u8
    };
    let mag: nat = if a.0 < 0 {
        (-a.0) as nat
    } else {
        a.0 as nat
    };
    let t1 = time_text(mag);
    let dur = match a.1 {
        Some(d) => seq![0x15u8] + time_text(d as nat),
        None => Seq::<u8>::empty(),
    };
    let e1: int = b + 1 + t1.len() as int;
    let e2: int = e1 + dur.len();
    let d = a.2;
    let end: int = e2 + 1 + d.len();
    assert(tal(a) =~= seq![sign] + t1 + dur + seq![0x14u8] + d + seq![0x14u8, 0u8]);
    assert(s[b] == sign);
    assert(s.subrange(b + 1, e1) =~= t1);
    assert(s[e2] == 0x14u8);
    assert(s.subrange(e2 + 1, end) =~= d);
    assert(s[end] == 0x14u8);
    assert(s[end + 1] == 0u8);
    assert(b + tal(a).len() == end + 2);
    if a.1 is Some {
        let t2 = time_text(a.1->Some_0 as nat);
        assert(s[e1] == 0x15u8);
        assert(s.subrange(e1 + 1, e2) =~= t2);
        lemma_time_round_trip(s, b + 1, mag);
        lemma_time_round_trip(s, e1 + 1, a.1->Some_0 as nat);
    } else {
        assert(s[e1] == 0x14u8);
        lemma_time_round_trip(s, b + 1, mag);
    }
    assert forall|q: int| e2 + 1 <= q < end implies #[trigger] s[q] != 0x14u8 && is_text_byte(s[q]) by {
        assert(s[q] == d[q - e2 - 1]);
    }
    lemma_find(s, e2 + 1, end, 0x14u8);
}

proof fn lemma_tal_start(a: AnnotationModel)
    ensures
        tal(a).len() > 0,
        tal(a)[0] != 0u8,
{
    reveal(tal);
}

/// The encodings of a run of annotations, one after another.
pub open spec fn tals(v: Seq<AnnotationModel>) -> Seq<u8>
    decreases v.len(),
{
    if v.len() == 0 {
        Seq::empty()
    } else {
        tal(v[0]) + tals(v.subrange(1, v.len() as int))
    }
}

/// A block that holds the encodings of valid annotations, then null padding or nothing,
/// decodes to exactly those annotations, in order.
#[verifier::rlimit(40)]
pub proof fn lemma_block_round_trip(pre: Seq<u8>, v: Seq<AnnotationModel>, rest: Seq<u8>)
    requires
        forall|k: int| 0 <= k < v.len() ==> valid_model(#[trigger] v[k]),
        rest.len() == 0 || rest[0] == 0u8,
    ensures
        block_annotations(pre + tals(v) + rest, pre.len() as int) == v,
    decreases v.len(),
{
    let s = pre + tals(v) + rest;
    if v.len() == 0 {
        assert(s =~= pre + rest);
        assert(block_annotations(s, pre.len() as int) =~= v);
    } else {
        let tail = v.subrange(1, v.len() as int);
        assert(valid_model(v[0]));
        lemma_annotation_round_trip(pre, v[0], tals(tail) + rest);
        assert(s =~= pre + tal(v[0]) + (tals(tail) + rest));
        lemma_tal_start(v[0]);
        assert(s[pre.len() as int] == tal(v[0])[0]);
        lemma_block_round_trip(pre + tal(v[0]), tail, rest);
        assert(s =~= (pre + tal(v[0])) + tals(tail) + rest);
        assert(seq![v[0]] + tail =~= v);
    }
}

pub proof fn lemma_tals_push(v: Seq<AnnotationModel>, a: AnnotationModel)
    ensures
        tals(v.push(a)) == tals(v) + tal(a),
    decreases v.len(),
{
    if v.len() == 0 {
        assert(v.push(a).subrange(1, 1) =~= Seq::<AnnotationModel>::empty());
        assert(tals(Seq::<AnnotationModel>::empty()) == Seq::<u8>::empty());
        assert(tals(v.push(a)) =~= tal(a));
    } else {
        let tail = v.subrange(1, v.len() as int);
        lemma_tals_push(tail, a);
        assert(v.push(a).subrange(1, v.len() + 1int) =~= tail.push(a));
        assert(tals(v.push(a)) =~= tals(v) + tal(a));
    }
}

/// Where a greedy fill stops: starting at index `k` with `used` bytes taken, the
/// annotations of `v` are taken in order while each still fits within `cap` bytes.
pub open spec fn greedy_end(used: int, v: Seq<AnnotationModel>, k: int, cap: int) -> int
    decreases v.len() - k,
{
    if 0 <= k < v.len() && used + tal(v[k]).len() <= cap {
        greedy_end(used + tal(v[k]).len(), v, k + 1, cap)
    } else {
        k
    }
}

pub proof fn lemma_greedy_bounds(used: int, v: Seq<AnnotationModel>, k: int, cap: int)
    requires
        0 <= k <= v.len(),
    ensures
        k <= greedy_end(used, v, k, cap) <= v.len(),
    decreases v.len() - k,
{
    if 0 <= k < v.len() && used + tal(v[k]).len() <= cap {
        lemma_greedy_bounds(used + tal(v[k]).len(), v, k + 1, cap);
    }
}

/// The time-keeping entry that opens a record starting at `t`: a bare time stamp.
pub open spec fn keeping(t: int) -> AnnotationModel {
    (t, None, Seq::empty())
}

/// The entries that open a block: the time-keeping entry, when one is asked for.
pub open spec fn block_head(start: Option<i64>) -> Seq<AnnotationModel> {
    match start {
        Some(t) => seq![keeping(t as int)],
        None => Seq::empty(),
    }
}

/// Fills one annotation block of `capacity` bytes: the time-keeping entry of a record
/// starting at `start` when given, then the pending annotations from index `from` on, in
/// order, up to the first one that does not fit, then null bytes. Gives the block and the
/// index of the first annotation left out.
#[verifier::rlimit(40)]
pub fn fill_annotation_block(
    start: Option<i64>,
    pending: &Vec<Annotation>,
    from: usize,
    capacity: usize,
) -> (r: Result<(Vec<u8>, usize), EdfError>)
    requires
        from <= pending@.len(),
        forall|k: int| 0 <= k < pending@.len() ==> valid_model(#[trigger] pending@[k].model()),
        start is Some ==> start->Some_0 != i64::MIN,
    ensures
        match r {
            Ok((b, to)) => {
                let v = block_head(start) + models(pending@.subrange(from as int, to as int));
                &&& from <= to <= pending@.len()
                &&& tals(block_head(start)).len() <= capacity
                &&& b@.len() == capacity
                &&& b@ == tals(v) + Seq::new((capacity - tals(v).len()) as nat, |k: int| 0u8)
                &&& to < pending@.len() ==> tals(v).len() + tal(pending@[to as int].model()).len()
                    > capacity
                &&& to == greedy_end(tals(block_head(start)).len() as int, models(pending@), from as int, capacity as int)
            },
            Err(e) => e == EdfError::AnnotationOverflow && tals(block_head(start)).len() > capacity,
        },
{
    let mut out: Vec<u8> = Vec::new();
    match start {
        Some(t) => {
            let k = Annotation { onset: t, duration: None, description: Vec::new() };
            let _ = encode_annotation(&mut out, &k);
            proof {
                assert(k.model() == keeping(t as int));
                assert(k.description@ =~= Seq::<u8>::empty());
                assert(block_head(start) =~= Seq::<AnnotationModel>::empty().push(keeping(t as int)));
                lemma_tals_push(Seq::empty(), keeping(t as int));
                assert(Seq::<u8>::empty() + tal(keeping(t as int)) =~= tal(keeping(t as int)));
            }
        },
        None => {},
    }
    assert(out@ == tals(block_head(start)));
    if out.len() > capacity {
        return Err(EdfError::AnnotationOverflow);
    }
    let mut to: usize = from;
    while to < pending.len()
        invariant
            from <= to <= pending@.len(),
            forall|k: int| 0 <= k < pending@.len() ==> valid_model(#[trigger] pending@[k].model()),
            out@ == tals(block_head(start) + models(pending@.subrange(from as int, to as int))),
            out@.len() <= capacity,
            greedy_end(tals(block_head(start)).len() as int, models(pending@), from as int, capacity as int)
                == greedy_end(out@.len() as int, models(pending@), to as int, capacity as int),
        ensures
            from <= to <= pending@.len(),
            out@ == tals(block_head(start) + models(pending@.subrange(from as int, to as int))),
            out@.len() <= capacity,
            to < pending@.len() ==> out@.len() + tal(pending@[to as int].model()).len() > capacity,
            greedy_end(tals(block_head(start)).len() as int, models(pending@), from as int, capacity as int)
                == to,
        decreases pending@.len() - to,
    {
        let mut one: Vec<u8> = Vec::new();
        let _ = encode_annotation(&mut one, &pending[to]);
        assert(one@ =~= tal(pending@[to as int].model()));
        assert(models(pending@)[to as int] == pending@[to as int].model());
        if one.len() > capacity - out.len() {
            break;
        }
        let ghost before = out@;
        let mut j: usize = 0;
        while j < one.len()
            invariant
                j <= one@.len(),
                out@ == before + one@.subrange(0, j as int),
            decreases one@.len() - j,
        {
            out.push(one[j]);
            assert(out@ =~= before + one@.subrange(0, j + 1));
            j = j + 1;
        }
        proof {
            assert(one@.subrange(0, one@.len() as int) =~= one@);
            let v = block_head(start) + models(pending@.subrange(from as int, to as int));
            lemma_tals_push(v, pending@[to as int].model());
            assert(block_head(start) + models(pending@.subrange(from as int, to + 1)) =~= v.push(
                pending@[to as int].model(),
            ));
        }
        to = to + 1;
    }
    let used = out.len();
    assert(to == greedy_end(tals(block_head(start)).len() as int, models(pending@), from as int, capacity as int));
    while out.len() < capacity
        invariant
            from <= to <= pending@.len(),
            used <= out@.len() <= capacity,
            to < pending@.len() ==> used + tal(pending@[to as int].model()).len() > capacity,
            out@.subrange(0, used as int) == tals(
                block_head(start) + models(pending@.subrange(from as int, to as int)),
            ),
            forall|k: int| used <= k < out@.len() ==> out@[k] == 0u8,
        decreases capacity - out@.len(),
    {
        let ghost prev = out@;
        out.push(0u8);
        assert(out@.subrange(0, used as int) =~= prev.subrange(0, used as int));
    }
    let ghost v = block_head(start) + models(pending@.subrange(from as int, to as int));
    assert(out@ =~= tals(v) + Seq::new((capacity - tals(v).len()) as nat, |k: int| 0u8));
    Ok((out, to))
}

/// The time-keeping entry of a record that starts at a whole number of seconds below
/// `10^8` takes at most twelve bytes.
pub proof fn lemma_keeping_len(seconds: nat)
    requires
        seconds < 100_000_000,
    ensures
        tal(keeping((seconds * TICKS_PER_SECOND) as int)).len() <= 12,
{
    reveal(tal);
    reveal_with_fuel(pow10, 9);
    lemma_digits_len(seconds, 8);
    let t = (seconds * TICKS_PER_SECOND) as nat;
    assert(t / (TICKS_PER_SECOND as nat) == seconds);
    assert(t % (TICKS_PER_SECOND as nat) == 0);
}

proof fn lemma_pow10_12()
    ensures
        pow10(12) == 1_000_000_000_000,
        pow10(7) == 10_000_000,
{
    reveal_with_fuel(pow10, 13);
}

} // verus!
