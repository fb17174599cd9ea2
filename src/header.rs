use vstd::prelude::*;
use crate::decimal::{digits, lemma_digits, push_digits};
use crate::sample::Filetype;

verus! {

/// The byte that stands in a header text field for a byte that is not printable ASCII.
pub const REPLACEMENT: u8 = 95;
/// The padding byte of header fields.
pub const SPACE: u8 = 32;

/// The parameters of one signal, as the header records them.
#[derive(Debug, Clone, PartialEq, Eq)]
pub struct SignalParam {
    pub label: Vec<u8>,
    pub transducer: Vec<u8>,
    pub physical_dimension: Vec<u8>,
    pub prefilter: Vec<u8>,
    pub phys_min: i32,
    pub phys_max: i32,
    pub dig_min: i32,
    pub dig_max: i32,
    pub samples_per_record: u32,
}

/// The header of a file.
#[derive(Debug, Clone, PartialEq, Eq)]
pub struct Header {
    pub filetype: Filetype,
    pub patient: Vec<u8>,
    pub recording: Vec<u8>,
    pub startdate: Vec<u8>,
    pub starttime: Vec<u8>,
    pub records: u32,
    pub duration_seconds: u32,
    pub signals: Vec<SignalParam>,
}

/// A header byte: printable ASCII kept, anything else replaced.
pub open spec fn ascii(b: u8) -> u8 {
    if 32 <= b <= 126 {
        b
    } else {
        REPLACEMENT
    }
}

/// A text field of width `w`: the text cut to `w` bytes, then spaces.
pub open spec fn text_field(s: Seq<u8>, w: nat) -> Seq<u8> {
    Seq::new(w, |k: int| if k < s.len() { ascii(s[k]) } else { SPACE })
}

/// The decimal text of an integer, with a minus sign when negative.
pub open spec fn int_text(n: int) -> Seq<u8> {
    if n < 0 {
        seq![45u8] + digits((-n) as nat)
    } else {
        digits(n as nat)
    }
}

/// A numeric field of width `w`: the decimal text, then spaces.
pub open spec fn num_field(n: int, w: nat) -> Seq<u8> {
    int_text(n) + Seq::new((w - int_text(n).len()) as nat, |k: int| SPACE)
}

/// Whether the decimal text of `n` fits a field of width `w`.
pub open spec fn fits(n: int, w: nat) -> bool {
    int_text(n).len() <= w
}

/// The fields of a signal's parameter block, in header order.
#[derive(Debug, Clone, Copy, PartialEq, Eq, Structural)]
pub enum SigField {
    Label,
    Transducer,
    Dimension,
    PhysMin,
    PhysMax,
    DigMin,
    DigMax,
    Prefilter,
    Samples,
    Reserved,
}

pub open spec fn field_width(f: SigField) -> nat {
    match f {
        SigField::Label => 16,
        SigField::Transducer => 80,
        SigField::Dimension => 8,
        SigField::PhysMin => 8,
        SigField::PhysMax => 8,
        SigField::DigMin => 8,
        SigField::DigMax => 8,
        SigField::Prefilter => 80,
        SigField::Samples => 8,
        SigField::Reserved => 32,
    }
}

/// The bytes of one field of one signal.
pub open spec fn field_bytes(f: SigField, p: SignalParam) -> Seq<u8> {
    match f {
        SigField::Label => text_field(p.label@, 16),
        SigField::Transducer => text_field(p.transducer@, 80),
        SigField::Dimension => text_field(p.physical_dimension@, 8),
        SigField::PhysMin => num_field(p.phys_min as int, 8),
        SigField::PhysMax => num_field(p.phys_max as int, 8),
        SigField::DigMin => num_field(p.dig_min as int, 8),
        SigField::DigMax => num_field(p.dig_max as int, 8),
        SigField::Prefilter => text_field(p.prefilter@, 80),
        SigField::Samples => num_field(p.samples_per_record as int, 8),
        SigField::Reserved => Seq::new(32, |k: int| SPACE),
    }
}

/// One field of every signal, signal after signal.
pub open spec fn per_signal(sigs: Seq<SignalParam>, f: SigField) -> Seq<u8>
    decreases sigs.len(),
{
    if sigs.len() == 0 {
        Seq::empty()
    } else {
        per_signal(sigs.drop_last(), f) + field_bytes(f, sigs.last())
    }
}

pub open spec fn version_field(ft: Filetype) -> Seq<u8> {
    match ft {
        Filetype::EDF => seq![48u8, 32, 32, 32, 32, 32, 32, 32],
        Filetype::BDF => seq![255u8, 66, 73, 79, 83, 69, 77, 73],
    }
}

/// The reserved field: `EDF+C` or `BDF+C`, a continuous recording.
pub open spec fn reserved_field(ft: Filetype) -> Seq<u8> {
    let first: u8 = match ft {
        Filetype::EDF => 69,
        Filetype::BDF => 66,
    };
    seq![first, 68u8, 70, 43, 67] + Seq::new(39, |k: int| SPACE)
}

/// The signal part of the header: each field for all signals before the next field.
pub open spec fn signal_part(sigs: Seq<SignalParam>) -> Seq<u8> {
    per_signal(sigs, SigField::Label) + per_signal(sigs, SigField::Transducer) + per_signal(
        sigs,
        SigField::Dimension,
    ) + per_signal(sigs, SigField::PhysMin) + per_signal(sigs, SigField::PhysMax) + per_signal(
        sigs,
        SigField::DigMin,
    ) + per_signal(sigs, SigField::DigMax) + per_signal(sigs, SigField::Prefilter) + per_signal(
        sigs,
        SigField::Samples,
    ) + per_signal(sigs, SigField::Reserved)
}

/// The global part of the header.
pub open spec fn global_part(h: Header) -> Seq<u8> {
    version_field(h.filetype) + text_field(h.patient@, 80) + text_field(h.recording@, 80)
        + text_field(h.startdate@, 8) + text_field(h.starttime@, 8) + num_field(
        256 * (h.signals@.len() + 1) as int,
        8,
    ) + reserved_field(h.filetype) + num_field(h.records as int, 8) + num_field(
        h.duration_seconds as int,
        8,
    ) + num_field(h.signals@.len() as int, 4)
}

/// The bytes of the whole header.
pub open spec fn header_bytes(h: Header) -> Seq<u8> {
    global_part(h) + signal_part(h.signals@)
}

/// Whether every number of the header fits its field.
pub open spec fn header_fits(h: Header) -> bool {
    &&& 1 <= h.signals@.len() <= 4096
    &&& fits(h.records as int, 8)
    &&& fits(h.duration_seconds as int, 8)
    &&& forall|i: int| 0 <= i < h.signals@.len() ==> signal_fits(#[trigger] h.signals@[i])
}

/// Whether every number of a signal's block fits its field.
pub open spec fn signal_fits(p: SignalParam) -> bool {
    fits(p.phys_min as int, 8) && fits(p.phys_max as int, 8) && fits(p.dig_min as int, 8) && fits(
        p.dig_max as int,
        8,
    ) && fits(p.samples_per_record as int, 8)
}

/// Whether `n` lies where its decimal text has at most `w` characters.
pub proof fn lemma_fits(n: int, w: nat)
    requires
        1 <= w <= 9,
        n >= 0 ==> n < crate::decimal::pow10(w),
        n < 0 ==> -n < crate::decimal::pow10((w - 1) as nat),
        n < 0 ==> w >= 2,
    ensures
        fits(n, w),
{
    if n < 0 {
        crate::annotation::lemma_digits_len((-n) as nat, (w - 1) as nat);
    } else {
        crate::annotation::lemma_digits_len(n as nat, w);
    }
}

/// Appends a text field of width `w`.
pub fn push_text_field(out: &mut Vec<u8>, s: &Vec<u8>, w: usize)
    ensures
        final(out)@ == old(out)@ + text_field(s@, w as nat),
{
    let ghost start = out@;
    let mut k: usize = 0;
    while k < w
        invariant
            k <= w,
            out@ == start + text_field(s@, w as nat).subrange(0, k as int),
        decreases w - k,
    {
        let b: u8 = if k < s.len() {
            let c = s[k];
            if 32 <= c && c <= 126 {
                c
            } else {
                REPLACEMENT
            }
        } else {
            SPACE
        };
        out.push(b);
        assert(out@ =~= start + text_field(s@, w as nat).subrange(0, k + 1));
        k = k + 1;
    }
    assert(text_field(s@, w as nat).subrange(0, w as int) =~= text_field(s@, w as nat));
}

/// Appends a numeric field of width `w`.
pub fn push_num_field(out: &mut Vec<u8>, n: i64, w: usize)
    requires
        n > i64::MIN,
        fits(n as int, w as nat),
    ensures
        final(out)@ == old(out)@ + num_field(n as int, w as nat),
{
    let base = out.len();
    let ghost start = out@;
    if n < 0 {
        out.push(45u8);
        push_digits(out, (-n) as u64);
    } else {
        push_digits(out, n as u64);
    }
    assert(out@ =~= start + int_text(n as int));
    let used = out.len() - base;
    let mut k: usize = used;
    while k < w
        invariant
            used <= k <= w,
            used == int_text(n as int).len(),
            out@ == start + int_text(n as int) + Seq::new((k - used) as nat, |j: int| SPACE),
        decreases w - k,
    {
        out.push(SPACE);
        assert(out@ =~= start + int_text(n as int) + Seq::new((k + 1 - used) as nat, |j: int| SPACE));
        k = k + 1;
    }
}

/// Appends one field of one signal.
fn push_field(out: &mut Vec<u8>, p: &SignalParam, f: SigField)
    requires
        signal_fits(*p),
    ensures
        final(out)@ == old(out)@ + field_bytes(f, *p),
{
    match f {
        SigField::Label => push_text_field(out, &p.label, 16),
        SigField::Transducer => push_text_field(out, &p.transducer, 80),
        SigField::Dimension => push_text_field(out, &p.physical_dimension, 8),
        SigField::PhysMin => push_num_field(out, p.phys_min as i64, 8),
        SigField::PhysMax => push_num_field(out, p.phys_max as i64, 8),
        SigField::DigMin => push_num_field(out, p.dig_min as i64, 8),
        SigField::DigMax => push_num_field(out, p.dig_max as i64, 8),
        SigField::Prefilter => push_text_field(out, &p.prefilter, 80),
        SigField::Samples => push_num_field(out, p.samples_per_record as i64, 8),
        SigField::Reserved => {
            let empty: Vec<u8> = Vec::new();
            push_text_field(out, &empty, 32);
            assert(text_field(empty@, 32) =~= Seq::new(32, |k: int| SPACE));
        },
    }
}

/// Appends one field of every signal.
fn push_per_signal(out: &mut Vec<u8>, sigs: &Vec<SignalParam>, f: SigField)
    requires
        forall|i: int| 0 <= i < sigs@.len() ==> signal_fits(#[trigger] sigs@[i]),
    ensures
        final(out)@ == old(out)@ + per_signal(sigs@, f),
{
    let ghost start = out@;
    let mut i: usize = 0;
    while i < sigs.len()
        invariant
            i <= sigs@.len(),
            forall|k: int| 0 <= k < sigs@.len() ==> signal_fits(#[trigger] sigs@[k]),
            out@ == start + per_signal(sigs@.subrange(0, i as int), f),
        decreases sigs@.len() - i,
    {
        push_field(out, &sigs[i], f);
        assert(sigs@.subrange(0, i + 1).drop_last() =~= sigs@.subrange(0, i as int));
        assert(out@ =~= start + per_signal(sigs@.subrange(0, i + 1), f));
        i = i + 1;
    }
    assert(sigs@.subrange(0, sigs@.len() as int) =~= sigs@);
}

pub proof fn lemma_field_len(f: SigField, p: SignalParam)
    requires
        signal_fits(p),
    ensures
        field_bytes(f, p).len() == field_width(f),
{
}

pub proof fn lemma_per_signal_len(sigs: Seq<SignalParam>, f: SigField)
    requires
        forall|i: int| 0 <= i < sigs.len() ==> signal_fits(#[trigger] sigs[i]),
    ensures
        per_signal(sigs, f).len() == sigs.len() * field_width(f),
    decreases sigs.len(),
{
    if sigs.len() > 0 {
        lemma_per_signal_len(sigs.drop_last(), f);
        lemma_field_len(f, sigs.last());
        assert((sigs.len() - 1) * field_width(f) + field_width(f) == sigs.len() * field_width(f))
            by (nonlinear_arith);
    }
}

/// The header is 256 bytes, then 256 bytes for each signal.
pub proof fn lemma_header_len(h: Header)
    requires
        header_fits(h),
    ensures
        header_bytes(h).len() == 256 + 256 * h.signals@.len(),
{
    let n = h.signals@.len();
    reveal_with_fuel(crate::decimal::pow10, 9);
    assert(crate::decimal::pow10(8) == 100000000);
    assert(crate::decimal::pow10(4) == 10000);
    lemma_fits(256 * (n + 1) as int, 8);
    lemma_fits(n as int, 4);
    lemma_per_signal_len(h.signals@, SigField::Label);
    lemma_per_signal_len(h.signals@, SigField::Transducer);
    lemma_per_signal_len(h.signals@, SigField::Dimension);
    lemma_per_signal_len(h.signals@, SigField::PhysMin);
    lemma_per_signal_len(h.signals@, SigField::PhysMax);
    lemma_per_signal_len(h.signals@, SigField::DigMin);
    lemma_per_signal_len(h.signals@, SigField::DigMax);
    lemma_per_signal_len(h.signals@, SigField::Prefilter);
    lemma_per_signal_len(h.signals@, SigField::Samples);
    lemma_per_signal_len(h.signals@, SigField::Reserved);
    assert(n * 16 + n * 80 + n * 8 + n * 8 + n * 8 + n * 8 + n * 8 + n * 80 + n * 8 + n * 32 == 256
        * n) by (nonlinear_arith);
}

/// The field of signal `i` sits at `i * width` within the run of that field.
pub proof fn lemma_per_signal_index(sigs: Seq<SignalParam>, f: SigField, i: int)
    requires
        forall|k: int| 0 <= k < sigs.len() ==> signal_fits(#[trigger] sigs[k]),
        0 <= i < sigs.len(),
    ensures
        per_signal(sigs, f).subrange(i * field_width(f), i * field_width(f) + field_width(f))
            == field_bytes(f, sigs[i]),
    decreases sigs.len(),
{
    let w = field_width(f);
    let n = sigs.len() - 1;
    lemma_per_signal_len(sigs.drop_last(), f);
    lemma_field_len(f, sigs.last());
    if i == n {
        assert(per_signal(sigs, f).subrange(i * w, i * w + w) =~= field_bytes(f, sigs[i]));
    } else {
        lemma_per_signal_index(sigs.drop_last(), f, i);
        assert(i * w + w <= n * w) by (nonlinear_arith)
            requires
                i < n,
        ;
        assert(0 <= i * w) by (nonlinear_arith)
            requires
                0 <= i,
        ;
        assert(per_signal(sigs, f).subrange(i * w, i * w + w) =~= per_signal(sigs.drop_last(), f).subrange(i * w, i * w + w));
    }
}

proof fn lemma_left(x: Seq<u8>, y: Seq<u8>, a: int, b: int)
    requires
        0 <= a <= b <= x.len(),
    ensures
        (x + y).subrange(a, b) == x.subrange(a, b),
{
    assert((x + y).subrange(a, b) =~= x.subrange(a, b));
}

proof fn lemma_right(x: Seq<u8>, y: Seq<u8>, a: int, b: int)
    requires
        x.len() <= a <= b <= x.len() + y.len(),
    ensures
        (x + y).subrange(a, b) == y.subrange(a - x.len(), b - x.len()),
{
    assert((x + y).subrange(a, b) =~= y.subrange(a - x.len(), b - x.len()));
}

/// Where the global numbers stand in the header.
#[verifier::rlimit(40)]
pub proof fn lemma_header_globals(h: Header)
    requires
        header_fits(h),
    ensures
        header_bytes(h).len() == 256 + 256 * h.signals@.len(),
        global_part(h).len() == 256,
        header_bytes(h)[0] == version_field(h.filetype)[0],
        header_bytes(h).subrange(236, 244) == num_field(h.records as int, 8),
        header_bytes(h).subrange(244, 252) == num_field(h.duration_seconds as int, 8),
        header_bytes(h).subrange(252, 256) == num_field(h.signals@.len() as int, 4),
{
    let ns = h.signals@.len() as int;
    reveal_with_fuel(crate::decimal::pow10, 9);
    assert(crate::decimal::pow10(8) == 100000000);
    assert(crate::decimal::pow10(4) == 10000);
    lemma_fits(256 * (ns + 1), 8);
    lemma_fits(ns, 4);
    lemma_header_len(h);
    let g7 = version_field(h.filetype) + text_field(h.patient@, 80) + text_field(h.recording@, 80)
        + text_field(h.startdate@, 8) + text_field(h.starttime@, 8) + num_field(256 * (ns + 1), 8)
        + reserved_field(h.filetype);
    let rec = num_field(h.records as int, 8);
    let dur = num_field(h.duration_seconds as int, 8);
    let nsf = num_field(ns, 4);
    let g8 = g7 + rec;
    let g9 = g8 + dur;
    let g = global_part(h);
    assert(g == g9 + nsf);
    assert(g7.len() == 236);
    let b = header_bytes(h);
    lemma_left(g, signal_part(h.signals@), 236, 244);
    lemma_left(g9, nsf, 236, 244);
    lemma_right(g7, rec, 236, 244);
    assert(rec.subrange(0, 8) =~= rec);
    lemma_left(g, signal_part(h.signals@), 244, 252);
    lemma_left(g9, nsf, 244, 252);
    lemma_right(g8, dur, 244, 252);
    assert(dur.subrange(0, 8) =~= dur);
    lemma_left(g, signal_part(h.signals@), 252, 256);
    lemma_right(g9, nsf, 252, 256);
    assert(nsf.subrange(0, 4) =~= nsf);
}

/// Where signal `i`'s numbers stand in the header.
#[verifier::rlimit(50)]
pub proof fn lemma_header_signal(h: Header, i: int)
    requires
        header_fits(h),
        0 <= i < h.signals@.len(),
    ensures
        ({
            let ns = h.signals@.len() as int;
            let b = header_bytes(h);
            let p = h.signals@[i];
            &&& b.subrange(256 + 16 * i, 256 + 16 * i + 16) == field_bytes(SigField::Label, p)
            &&& b.subrange(256 + 104 * ns + 8 * i, 256 + 104 * ns + 8 * i + 8) == field_bytes(SigField::PhysMin, p)
            &&& b.subrange(256 + 112 * ns + 8 * i, 256 + 112 * ns + 8 * i + 8) == field_bytes(SigField::PhysMax, p)
            &&& b.subrange(256 + 120 * ns + 8 * i, 256 + 120 * ns + 8 * i + 8) == field_bytes(SigField::DigMin, p)
            &&& b.subrange(256 + 128 * ns + 8 * i, 256 + 128 * ns + 8 * i + 8) == field_bytes(SigField::DigMax, p)
            &&& b.subrange(256 + 216 * ns + 8 * i, 256 + 216 * ns + 8 * i + 8) == field_bytes(SigField::Samples, p)
        }),
{
    let ns = h.signals@.len() as int;
    let sigs = h.signals@;
    lemma_header_globals(h);
    let g = global_part(h);
    let b = header_bytes(h);
    let l1 = per_signal(sigs, SigField::Label);
    let l2 = per_signal(sigs, SigField::Transducer);
    let l3 = per_signal(sigs, SigField::Dimension);
    let l4 = per_signal(sigs, SigField::PhysMin);
    let l5 = per_signal(sigs, SigField::PhysMax);
    let l6 = per_signal(sigs, SigField::DigMin);
    let l7 = per_signal(sigs, SigField::DigMax);
    let l8 = per_signal(sigs, SigField::Prefilter);
    let l9 = per_signal(sigs, SigField::Samples);
    let l10 = per_signal(sigs, SigField::Reserved);
    lemma_per_signal_len(sigs, SigField::Label);
    lemma_per_signal_len(sigs, SigField::Transducer);
    lemma_per_signal_len(sigs, SigField::Dimension);
    lemma_per_signal_len(sigs, SigField::PhysMin);
    lemma_per_signal_len(sigs, SigField::PhysMax);
    lemma_per_signal_len(sigs, SigField::DigMin);
    lemma_per_signal_len(sigs, SigField::DigMax);
    lemma_per_signal_len(sigs, SigField::Prefilter);
    lemma_per_signal_len(sigs, SigField::Samples);
    lemma_per_signal_len(sigs, SigField::Reserved);
    let a2 = l1 + l2;
    let a3 = a2 + l3;
    let a4 = a3 + l4;
    let a5 = a4 + l5;
    let a6 = a5 + l6;
    let a7 = a6 + l7;
    let a8 = a7 + l8;
    let a9 = a8 + l9;
    let p = a9 + l10;
    assert(p == signal_part(sigs));
    assert(8 * i + 8 <= 8 * ns);
    assert(16 * i + 16 <= 16 * ns);
    // label
    lemma_per_signal_index(sigs, SigField::Label, i);
    lemma_right(g, p, 256 + 16 * i, 256 + 16 * i + 16);
    lemma_left(a9, l10, 16 * i, 16 * i + 16);
    lemma_left(a8, l9, 16 * i, 16 * i + 16);
    lemma_left(a7, l8, 16 * i, 16 * i + 16);
    lemma_left(a6, l7, 16 * i, 16 * i + 16);
    lemma_left(a5, l6, 16 * i, 16 * i + 16);
    lemma_left(a4, l5, 16 * i, 16 * i + 16);
    lemma_left(a3, l4, 16 * i, 16 * i + 16);
    lemma_left(a2, l3, 16 * i, 16 * i + 16);
    lemma_left(l1, l2, 16 * i, 16 * i + 16);
    // physical minimum
    let o = 104 * ns + 8 * i;
    lemma_per_signal_index(sigs, SigField::PhysMin, i);
    lemma_right(g, p, 256 + o, 256 + o + 8);
    lemma_left(a9, l10, o, o + 8);
    lemma_left(a8, l9, o, o + 8);
    lemma_left(a7, l8, o, o + 8);
    lemma_left(a6, l7, o, o + 8);
    lemma_left(a5, l6, o, o + 8);
    lemma_left(a4, l5, o, o + 8);
    lemma_right(a3, l4, o, o + 8);
    // physical maximum
    let o = 112 * ns + 8 * i;
    lemma_per_signal_index(sigs, SigField::PhysMax, i);
    lemma_right(g, p, 256 + o, 256 + o + 8);
    lemma_left(a9, l10, o, o + 8);
    lemma_left(a8, l9, o, o + 8);
    lemma_left(a7, l8, o, o + 8);
    lemma_left(a6, l7, o, o + 8);
    lemma_left(a5, l6, o, o + 8);
    lemma_right(a4, l5, o, o + 8);
    // digital minimum
    let o = 120 * ns + 8 * i;
    lemma_per_signal_index(sigs, SigField::DigMin, i);
    lemma_right(g, p, 256 + o, 256 + o + 8);
    lemma_left(a9, l10, o, o + 8);
    lemma_left(a8, l9, o, o + 8);
    lemma_left(a7, l8, o, o + 8);
    lemma_left(a6, l7, o, o + 8);
    lemma_right(a5, l6, o, o + 8);
    // digital maximum
    let o = 128 * ns + 8 * i;
    lemma_per_signal_index(sigs, SigField::DigMax, i);
    lemma_right(g, p, 256 + o, 256 + o + 8);
    lemma_left(a9, l10, o, o + 8);
    lemma_left(a8, l9, o, o + 8);
    lemma_left(a7, l8, o, o + 8);
    lemma_right(a6, l7, o, o + 8);
    // samples per record
    let o = 216 * ns + 8 * i;
    lemma_per_signal_index(sigs, SigField::Samples, i);
    lemma_right(g, p, 256 + o, 256 + o + 8);
    lemma_left(a9, l10, o, o + 8);
    lemma_right(a8, l9, o, o + 8);
}

/// Writes the header.
#[verifier::rlimit(40)]
pub fn encode_header(h: &Header) -> (r: Vec<u8>)
    requires
        header_fits(*h),
    ensures
        r@ == header_bytes(*h),
        r@.len() == 256 + 256 * h.signals@.len(),
{
    let n = h.signals.len();
    proof {
        reveal_with_fuel(crate::decimal::pow10, 9);
        assert(crate::decimal::pow10(8) == 100000000);
        assert(crate::decimal::pow10(4) == 10000);
        lemma_fits(256 * (n + 1) as int, 8);
        lemma_fits(n as int, 4);
        lemma_header_len(*h);
    }
    let mut out: Vec<u8> = Vec::new();
    match h.filetype {
        Filetype::EDF => {
            out.push(48u8);
            let mut k: usize = 0;
            while k < 7
                invariant
                    k <= 7,
                    out@ == seq![48u8] + Seq::new(k as nat, |j: int| SPACE),
                decreases 7 - k,
            {
                out.push(SPACE);
                assert(out@ =~= seq![48u8] + Seq::new((k + 1) as nat, |j: int| SPACE));
                k = k + 1;
            }
        },
        Filetype::BDF => {
            out.push(255u8);
            out.push(66u8);
            out.push(73u8);
            out.push(79u8);
            out.push(83u8);
            out.push(69u8);
            out.push(77u8);
            out.push(73u8);
        },
    }
    assert(out@ =~= version_field(h.filetype));
    push_text_field(&mut out, &h.patient, 80);
    push_text_field(&mut out, &h.recording, 80);
    push_text_field(&mut out, &h.startdate, 8);
    push_text_field(&mut out, &h.starttime, 8);
    push_num_field(&mut out, 256 * (n as i64 + 1), 8);
    let ghost before_reserved = out@;
    match h.filetype {
        Filetype::EDF => out.push(69u8),
        Filetype::BDF => out.push(66u8),
    }
    out.push(68u8);
    out.push(70u8);
    out.push(43u8);
    out.push(67u8);
    let mut k: usize = 0;
    while k < 39
        invariant
            k <= 39,
            out@.len() == before_reserved.len() + 5 + k,
            out@.subrange(0, before_reserved.len() + 5int) == before_reserved + reserved_field(
                h.filetype,
            ).subrange(0, 5),
            forall|j: int| before_reserved.len() + 5 <= j < out@.len() ==> out@[j] == SPACE,
        decreases 39 - k,
    {
        let ghost prev = out@;
        out.push(SPACE);
        assert(out@.subrange(0, before_reserved.len() + 5int) =~= prev.subrange(0, before_reserved.len() + 5int));
        k = k + 1;
    }
    let ghost br = before_reserved.len() as int;
    assert forall|j: int| 0 <= j < out@.len() implies out@[j] == (before_reserved + reserved_field(
        h.filetype,
    ))[j] by {
        if j < br + 5 {
            assert(out@[j] == out@.subrange(0, br + 5)[j]);
        }
    }
    assert(out@ =~= before_reserved + reserved_field(h.filetype));
    push_num_field(&mut out, h.records as i64, 8);
    push_num_field(&mut out, h.duration_seconds as i64, 8);
    push_num_field(&mut out, n as i64, 4);
    let ghost global = out@;
    assert(global == global_part(*h));
    push_per_signal(&mut out, &h.signals, SigField::Label);
    push_per_signal(&mut out, &h.signals, SigField::Transducer);
    push_per_signal(&mut out, &h.signals, SigField::Dimension);
    push_per_signal(&mut out, &h.signals, SigField::PhysMin);
    push_per_signal(&mut out, &h.signals, SigField::PhysMax);
    push_per_signal(&mut out, &h.signals, SigField::DigMin);
    push_per_signal(&mut out, &h.signals, SigField::DigMax);
    push_per_signal(&mut out, &h.signals, SigField::Prefilter);
    push_per_signal(&mut out, &h.signals, SigField::Samples);
    push_per_signal(&mut out, &h.signals, SigField::Reserved);
    assert(out@ =~= header_bytes(*h));
    out
}

} // verus!
