use vstd::prelude::*;
use crate::annotation::{block_annotations, decode_block, models, Annotation, AnnotationModel};
use crate::decimal::{all_digits, digit_value, is_digit, parse_digits};
use crate::error::EdfError;
use crate::record::{block_offset, record_len};
use crate::sample::{read_sample, sample_value, Filetype};
use crate::scaling::{Physical, Scaling};
use crate::seek::{locate_time, seek_position, Whence};
use crate::edf::{lemma_sample_in_record, ordinary_index, slot, Edf, SessionState, ANNOTATION_BYTES};
use crate::header::{header_bytes, header_fits, Header};

verus! {

/// The index just past the last byte of `f` that is not a space.
pub open spec fn content_end(f: Seq<u8>) -> int
    decreases f.len(),
{
    if f.len() == 0 {
        0
    } else if f.last() == 32u8 {
        content_end(f.drop_last())
    } else {
        f.len() as int
    }
}

/// The integer in the numeric field of width `w` at `off`: an optional minus sign, one to
/// nine digits, then spaces.
pub open spec fn field_value(s: Seq<u8>, off: int, w: int) -> Option<int> {
    let f = s.subrange(off, off + w);
    let e = content_end(f);
    if e == 0 {
        None
    } else {
        let neg = f[0] == 45u8;
        let ds = if neg {
            f.subrange(1, e)
        } else {
            f.subrange(0, e)
        };
        if ds.len() == 0 || ds.len() > 9 || !all_digits(ds) {
            None
        } else if neg {
            Some(-digit_value(ds))
        } else {
            Some(digit_value(ds))
        }
    }
}

fn content_end_exec(s: &Vec<u8>, off: usize, w: usize) -> (r: usize)
    requires
        off + w <= s@.len(),
    ensures
        r == content_end(s@.subrange(off as int, off + w)),
        r <= w,
{
    let total = s.len();
    let mut e: usize = w;
    while e > 0 && s[off + e - 1] == 32u8
        invariant
            e <= w,
            off + w <= s@.len(),
            total == s@.len(),
            content_end(s@.subrange(off as int, off + w)) == content_end(s@.subrange(off as int, off + e)),
        decreases e,
    {
        assert(s@.subrange(off as int, off + e).drop_last() =~= s@.subrange(off as int, off + e - 1));
        e = e - 1;
    }
    e
}

/// Reads the numeric field of width `w` at `off`, as `field_value` describes.
pub fn parse_field(s: &Vec<u8>, off: usize, w: usize) -> (r: Option<i64>)
    requires
        off + w <= s@.len(),
    ensures
        match r {
            Some(v) => field_value(s@, off as int, w as int) == Some(v as int),
            None => field_value(s@, off as int, w as int) is None,
        },
{
    let total = s.len();
    let ghost f = s@.subrange(off as int, off + w);
    let e = content_end_exec(s, off, w);
    if e == 0 {
        return None;
    }
    let neg = s[off] == 45u8;
    let start = if neg {
        off + 1
    } else {
        off
    };
    let end = off + e;
    assert(s@.subrange(start as int, end as int) =~= if neg {
        f.subrange(1, e as int)
    } else {
        f.subrange(0, e as int)
    });
    if end <= start || end - start > 9 {
        return None;
    }
    let mut k: usize = start;
    while k < end
        invariant
            start <= k <= end <= s@.len(),
            f == s@.subrange(off as int, off + w),
            off + w <= s@.len(),
            e as int == content_end(f),
            0 < e <= w,
            neg == (f[0] == 45u8),
            end == off + e,
            start == if neg { off + 1 } else { off as int },
            start < end,
            end - start <= 9,
            s@.subrange(start as int, end as int) == if neg {
                f.subrange(1, e as int)
            } else {
                f.subrange(0, e as int)
            },
            forall|m: int| start <= m < k ==> is_digit(#[trigger] s@[m]),
        decreases end - k,
    {
        if s[k] < 48 || s[k] > 57 {
            assert(!all_digits(s@.subrange(start as int, end as int))) by {
                assert(s@.subrange(start as int, end as int)[k - start] == s@[k as int]);
            }
            return None;
        }
        k = k + 1;
    }
    assert(all_digits(s@.subrange(start as int, end as int))) by {
        assert forall|m: int| 0 <= m < end - start implies is_digit(
            #[trigger] s@.subrange(start as int, end as int)[m],
        ) by {
            assert(s@.subrange(start as int, end as int)[m] == s@[start + m]);
        }
    }
    let v = parse_digits(s, start, end);
    proof {
        crate::decimal::lemma_digit_value_bound(s@.subrange(start as int, end as int));
        crate::decimal::lemma_pow10_monotone((end - start) as nat, 9);
        reveal_with_fuel(crate::decimal::pow10, 10);
    }
    if neg {
        Some(-(v as i64))
    } else {
        Some(v as i64)
    }
}

/// What the reader keeps of a signal's parameter block.
#[derive(Debug, Clone, Copy, PartialEq, Eq, Structural)]
pub struct SignalInfo {
    pub samples_per_record: u32,
    pub dig_min: i32,
    pub dig_max: i32,
    pub phys_min: i32,
    pub phys_max: i32,
    pub is_annotation: bool,
}

/// The variant that the version field names: `0` for EDF+, byte 255 for BDF+.
pub open spec fn filetype_in(s: Seq<u8>) -> Option<Filetype> {
    if s.len() >= 256 && s[0] == 48u8 {
        Some(Filetype::EDF)
    } else if s.len() >= 256 && s[0] == 255u8 {
        Some(Filetype::BDF)
    } else {
        None
    }
}

/// The parameters of signal `i` of `ns`, as the header at the start of `s` states them,
/// when they are valid.
pub open spec fn signal_in(s: Seq<u8>, ft: Filetype, ns: int, i: int) -> Option<SignalInfo> {
    let label = s.subrange(256 + 16 * i, 256 + 16 * i + 16);
    let ann = label == crate::edf::annotation_label(ft);
    let w = ft.spec_width();
    match (
        field_value(s, 256 + 216 * ns + 8 * i, 8),
        field_value(s, 256 + 120 * ns + 8 * i, 8),
        field_value(s, 256 + 128 * ns + 8 * i, 8),
        field_value(s, 256 + 104 * ns + 8 * i, 8),
        field_value(s, 256 + 112 * ns + 8 * i, 8),
    ) {
        (Some(spr), Some(dmin), Some(dmax), Some(pmin), Some(pmax)) => {
            if 1 <= spr <= 99999999 && crate::sample::min_code(w) <= dmin < dmax
                <= crate::sample::max_code(w) && crate::scaling::in_physical_limits(pmin)
                && crate::scaling::in_physical_limits(pmax) && pmin < pmax {
                Some(
                    SignalInfo {
                        samples_per_record: spr as u32,
                        dig_min: dmin as i32,
                        dig_max: dmax as i32,
                        phys_min: pmin as i32,
                        phys_max: pmax as i32,
                        is_annotation: ann,
                    },
                )
            } else {
                None
            }
        },
        _ => None,
    }
}

/// The byte offset of the first field of signal `i`'s parameters that cannot be read or is
/// out of range: samples per record, then the digital range, then the physical range.
pub open spec fn signal_fault(s: Seq<u8>, ft: Filetype, ns: int, i: int) -> int {
    let spr_at = 256 + 216 * ns + 8 * i;
    let dmin_at = 256 + 120 * ns + 8 * i;
    let dmax_at = 256 + 128 * ns + 8 * i;
    let pmin_at = 256 + 104 * ns + 8 * i;
    let pmax_at = 256 + 112 * ns + 8 * i;
    let w = ft.spec_width();
    if !(field_value(s, spr_at, 8) matches Some(spr) && 1 <= spr <= 99999999) {
        spr_at
    } else if field_value(s, dmin_at, 8) is None {
        dmin_at
    } else if field_value(s, dmax_at, 8) is None {
        dmax_at
    } else if !(crate::sample::min_code(w) <= field_value(s, dmin_at, 8)->Some_0 < field_value(
        s,
        dmax_at,
        8,
    )->Some_0 <= crate::sample::max_code(w)) {
        dmin_at
    } else if field_value(s, pmin_at, 8) is None {
        pmin_at
    } else if field_value(s, pmax_at, 8) is None {
        pmax_at
    } else {
        pmin_at
    }
}

/// The first signal from index `i` on whose parameters are not valid, or `ns`.
pub open spec fn first_bad_signal(s: Seq<u8>, ft: Filetype, ns: int, i: int) -> int
    decreases ns - i,
{
    if i < 0 || i >= ns {
        ns
    } else if signal_in(s, ft, ns, i) is None {
        i
    } else {
        first_bad_signal(s, ft, ns, i + 1)
    }
}

/// The byte offset of the first header field that makes the header invalid: the version,
/// the signal count, the record count, the record duration, then the signals in order.
pub open spec fn header_fault(s: Seq<u8>) -> int {
    if filetype_in(s) is None {
        0
    } else if !(signal_count_in(s) matches Some(ns) && 1 <= ns <= 4096 && 256 + 256 * ns <= s.len()) {
        252
    } else if field_value(s, 236, 8) is None {
        236
    } else if !(field_value(s, 244, 8) matches Some(d) && d >= 1) {
        244
    } else {
        let ft = filetype_in(s)->Some_0;
        let ns = signal_count_in(s)->Some_0;
        signal_fault(s, ft, ns, first_bad_signal(s, ft, ns, 0))
    }
}

/// Reads the parameters of signal `i`, as `signal_in` describes.
#[verifier::rlimit(40)]
fn parse_signal(s: &Vec<u8>, ft: Filetype, ns: usize, i: usize) -> (r: Result<SignalInfo, u32>)
    requires
        1 <= ns <= 4096,
        i < ns,
        256 + 256 * ns <= s@.len(),
    ensures
        match r {
            Ok(info) => signal_in(s@, ft, ns as int, i as int) == Some(info),
            Err(p) => signal_in(s@, ft, ns as int, i as int) is None && p == signal_fault(
                s@,
                ft,
                ns as int,
                i as int,
            ),
        },
{
    proof {
        reveal_with_fuel(crate::sample::modulus, 4);
    }
    let base: usize = 256;
    let spr = parse_field(s, base + 216 * ns + 8 * i, 8);
    let dmin = parse_field(s, base + 120 * ns + 8 * i, 8);
    let dmax = parse_field(s, base + 128 * ns + 8 * i, 8);
    let pmin = parse_field(s, base + 104 * ns + 8 * i, 8);
    let pmax = parse_field(s, base + 112 * ns + 8 * i, 8);
    let lab = base + 16 * i;
    let first: u8 = match ft {
        Filetype::EDF => 69,
        Filetype::BDF => 66,
    };
    let expected = vec![first, 68u8, 70, 32, 65, 110, 110, 111, 116, 97, 116, 105, 111, 110, 115, 32];
    assert(expected@ =~= crate::edf::annotation_label(ft));
    let total = s.len();
    let mut ann = true;
    let mut k: usize = 0;
    assert(s@.subrange(lab as int, lab as int) =~= expected@.subrange(0, 0));
    while k < 16
        invariant
            k <= 16,
            total == s@.len(),
            lab + 16 <= s@.len(),
            expected@.len() == 16,
            ann == (s@.subrange(lab as int, lab + k) == expected@.subrange(0, k as int)),
        decreases 16 - k,
    {
        proof {
            if ann {
                assert(s@.subrange(lab as int, lab + k + 1) =~= s@.subrange(lab as int, lab + k).push(s@[lab + k]));
                assert(expected@.subrange(0, k + 1) =~= expected@.subrange(0, k as int).push(expected@[k as int]));
            } else {
                if s@.subrange(lab as int, lab + k + 1) == expected@.subrange(0, k + 1) {
                    assert(s@.subrange(lab as int, lab + k) =~= s@.subrange(lab as int, lab + k + 1).subrange(0, k as int));
                    assert(expected@.subrange(0, k as int) =~= expected@.subrange(0, k + 1).subrange(0, k as int));
                }
            }
        }
        if s[lab + k] != expected[k] {
            proof {
                if s@.subrange(lab as int, lab + k + 1) == expected@.subrange(0, k + 1) {
                    assert(s@.subrange(lab as int, lab + k + 1)[k as int] == s@[lab + k]);
                }
            }
            ann = false;
        }
        k = k + 1;
    }
    assert(expected@.subrange(0, 16) =~= expected@);
    let spr_at = (base + 216 * ns + 8 * i) as u32;
    let dmin_at = (base + 120 * ns + 8 * i) as u32;
    let dmax_at = (base + 128 * ns + 8 * i) as u32;
    let pmin_at = (base + 104 * ns + 8 * i) as u32;
    let pmax_at = (base + 112 * ns + 8 * i) as u32;
    let spr = match spr {
        Some(v) => v,
        None => {
            return Err(spr_at);
        },
    };
    if spr < 1 || spr > 99999999 {
        return Err(spr_at);
    }
    let dmin = match dmin {
        Some(v) => v,
        None => {
            return Err(dmin_at);
        },
    };
    let dmax = match dmax {
        Some(v) => v,
        None => {
            return Err(dmax_at);
        },
    };
    if !(ft.digital_floor() as i64 <= dmin && dmin < dmax && dmax <= ft.digital_ceiling() as i64) {
        return Err(dmin_at);
    }
    let pmin = match pmin {
        Some(v) => v,
        None => {
            return Err(pmin_at);
        },
    };
    let pmax = match pmax {
        Some(v) => v,
        None => {
            return Err(pmax_at);
        },
    };
    if !(-9999999 <= pmin && pmin <= 99999999 && -9999999 <= pmax && pmax <= 99999999 && pmin < pmax) {
        return Err(pmin_at);
    }
    Ok(
        SignalInfo {
            samples_per_record: spr as u32,
            dig_min: dmin as i32,
            dig_max: dmax as i32,
            phys_min: pmin as i32,
            phys_max: pmax as i32,
            is_annotation: ann,
        },
    )
}

/// The number of signals that the header states.
pub open spec fn signal_count_in(s: Seq<u8>) -> Option<int> {
    if s.len() >= 256 {
        field_value(s, 252, 4)
    } else {
        None
    }
}

/// Whether the header at the start of `s` is one that the reader accepts: a known
/// version, 1 to 4096 signals whose blocks are all present and valid, a record count, and
/// a whole positive number of seconds per record.
pub open spec fn header_valid(s: Seq<u8>) -> bool {
    &&& filetype_in(s) is Some
    &&& signal_count_in(s) matches Some(ns) && 1 <= ns <= 4096 && 256 + 256 * ns <= s.len()
    &&& field_value(s, 236, 8) is Some
    &&& field_value(s, 244, 8) matches Some(d) && d >= 1
    &&& forall|i: int|
        0 <= i < signal_count_in(s)->Some_0 ==> (#[trigger] signal_in(
            s,
            filetype_in(s)->Some_0,
            signal_count_in(s)->Some_0,
            i,
        )) is Some
}

/// A file opened for reading: its bytes, the layout its header states, and a read
/// position for each signal.
pub struct EdfReader {
    pub bytes: Vec<u8>,
    pub filetype: Filetype,
    pub signals: Vec<SignalInfo>,
    pub spr: Vec<u32>,
    pub header_len: u64,
    pub record_len: u64,
    pub records: u64,
    pub declared_records: i64,
    pub duration_seconds: i64,
    pub cursors: Vec<u64>,
}

impl EdfReader {
    /// The reader's tables agree with the header of its bytes.
    pub open spec fn wf(self) -> bool {
        let s = self.bytes@;
        let ns = self.signals@.len() as int;
        let w = self.filetype.spec_width();
        &&& header_valid(s)
        &&& filetype_in(s) == Some(self.filetype)
        &&& signal_count_in(s) == Some(ns)
        &&& forall|i: int| 0 <= i < ns ==> signal_in(s, self.filetype, ns, i) == Some(#[trigger] self.signals@[i])
        &&& self.spr@.len() == ns
        &&& forall|i: int| 0 <= i < ns ==> #[trigger] self.spr@[i] == self.signals@[i].samples_per_record
        &&& self.header_len == 256 + 256 * ns
        &&& self.record_len == record_len(self.spr@, w)
        &&& self.record_len > 0
        &&& self.records == (s.len() - self.header_len) / (self.record_len as int)
        &&& field_value(s, 236, 8) == Some(self.declared_records as int)
        &&& field_value(s, 244, 8) == Some(self.duration_seconds as int)
        &&& self.cursors@.len() == ns
        &&& forall|i: int| 0 <= i < ns ==> #[trigger] self.cursors@[i] <= self.records * self.spr@[i]
    }

    /// Opens a file from its bytes: parses the header and builds the layout tables. The
    /// number of records comes from the length of the data; a header that cannot be
    /// parsed gives `MalformedHeader` with the offset of the first offending field.
    #[verifier::rlimit(40)]
    pub fn open_read(bytes: Vec<u8>) -> (r: Result<EdfReader, EdfError>)
        ensures
            header_valid(bytes@) <==> r is Ok,
            r is Err ==> r == Err::<EdfReader, EdfError>(
                EdfError::MalformedHeader(header_fault(bytes@) as u32),
            ),
            r matches Ok(rd) ==> rd.wf() && rd.bytes@ == bytes@ && forall|i: int|
                0 <= i < rd.cursors@.len() ==> #[trigger] rd.cursors@[i] == 0,
    {
        let total = bytes.len();
        if total < 256 {
            return Err(EdfError::MalformedHeader(0));
        }
        let ft = if bytes[0] == 48u8 {
            Filetype::EDF
        } else if bytes[0] == 255u8 {
            Filetype::BDF
        } else {
            return Err(EdfError::MalformedHeader(0));
        };
        let ns = match parse_field(&bytes, 252, 4) {
            Some(v) => v,
            None => {
                return Err(EdfError::MalformedHeader(252));
            },
        };
        if ns < 1 || ns > 4096 || (total as u64) < 256 + 256 * ns as u64 {
            return Err(EdfError::MalformedHeader(252));
        }
        let ns = ns as usize;
        let declared = match parse_field(&bytes, 236, 8) {
            Some(v) => v,
            None => {
                return Err(EdfError::MalformedHeader(236));
            },
        };
        let duration = match parse_field(&bytes, 244, 8) {
            Some(v) => v,
            None => {
                return Err(EdfError::MalformedHeader(244));
            },
        };
        if duration < 1 {
            return Err(EdfError::MalformedHeader(244));
        }
        let w = ft.width();
        let mut signals: Vec<SignalInfo> = Vec::new();
        let mut spr: Vec<u32> = Vec::new();
        let mut cursors: Vec<u64> = Vec::new();
        let mut rl: u64 = 0;
        let mut i: usize = 0;
        while i < ns
            invariant
                total == bytes@.len(),
                1 <= ns <= 4096,
                256 + 256 * ns <= bytes@.len(),
                filetype_in(bytes@) == Some(ft),
                signal_count_in(bytes@) == Some(ns as int),
                w == ft.spec_width(),
                i <= ns,
                signals@.len() == i,
                spr@.len() == i,
                cursors@.len() == i,
                forall|m: int| 0 <= m < i ==> signal_in(bytes@, ft, ns as int, m) == Some(#[trigger] signals@[m]),
                forall|m: int| 0 <= m < i ==> #[trigger] spr@[m] == signals@[m].samples_per_record,
                forall|m: int| 0 <= m < i ==> #[trigger] cursors@[m] == 0,
                forall|m: int| 0 <= m < i ==> 1 <= #[trigger] spr@[m] <= 99999999,
                rl == record_len(spr@, w as nat),
                rl <= i * 300_000_000,
                i > 0 ==> rl > 0,
                duration >= 1,
                field_value(bytes@, 236, 8) == Some(declared as int),
                field_value(bytes@, 244, 8) == Some(duration as int),
                first_bad_signal(bytes@, ft, ns as int, 0) == first_bad_signal(bytes@, ft, ns as int, i as int),
            decreases ns - i,
        {
            match parse_signal(&bytes, ft, ns, i) {
                Ok(info) => {
                    let ghost before = spr@;
                    assert(rl + info.samples_per_record as u64 * w as u64 <= (i + 1) * 300_000_000)
                        by (nonlinear_arith)
                        requires
                            rl <= i * 300_000_000,
                            info.samples_per_record <= 99999999,
                            w <= 3,
                    ;
                    assert(info.samples_per_record as u64 * w as u64 >= 1) by (nonlinear_arith)
                        requires
                            info.samples_per_record >= 1,
                            w >= 2,
                    ;
                    rl = rl + info.samples_per_record as u64 * w as u64;
                    spr.push(info.samples_per_record);
                    signals.push(info);
                    cursors.push(0);
                    proof {
                        assert(spr@.drop_last() =~= before);
                        lemma_record_len_push(before, info.samples_per_record, w as nat);
                    }
                },
                Err(p) => {
                    assert(first_bad_signal(bytes@, ft, ns as int, i as int) == i);
                    return Err(EdfError::MalformedHeader(p));
                },
            }
            i = i + 1;
        }
        let hlen: u64 = 256 + 256 * ns as u64;
        let records = (total as u64 - hlen) / rl;
        assert forall|m: int| 0 <= m < ns implies (#[trigger] signal_in(
            bytes@,
            filetype_in(bytes@)->Some_0,
            signal_count_in(bytes@)->Some_0,
            m,
        )) is Some by {
            assert(signal_in(bytes@, ft, ns as int, m) == Some(signals@[m]));
        }
        assert(header_valid(bytes@));
        assert forall|m: int| 0 <= m < ns implies #[trigger] cursors@[m] <= records * spr@[m] by {
            assert(0 <= records * spr@[m]) by (nonlinear_arith);
        }
        Ok(EdfReader {
            bytes,
            filetype: ft,
            signals,
            spr,
            header_len: hlen,
            record_len: rl,
            records,
            declared_records: declared,
            duration_seconds: duration,
            cursors,
        })
    }
}

impl EdfReader {
    /// Where sample `q` of signal `i` stands in the file.
    pub open spec fn sample_pos(self, i: int, q: int) -> int {
        let spr = self.spr@[i] as int;
        let w = self.filetype.spec_width();
        self.header_len + (q / spr) * self.record_len + block_offset(self.spr@, w, i) + (q % spr) * w
    }

    /// The digital code of sample `q` of signal `i`.
    pub open spec fn code_at(self, i: int, q: int) -> int {
        let p = self.sample_pos(i, q);
        sample_value(self.bytes@.subrange(p, p + self.filetype.spec_width()))
    }

    /// The number of samples signal `i` has in the file.
    pub open spec fn sample_count(self, i: int) -> int {
        self.records * self.spr@[i]
    }

    /// The scaling map of signal `i`.
    pub open spec fn scaling(self, i: int) -> Scaling {
        let p = self.signals@[i];
        Scaling { dig_min: p.dig_min, dig_max: p.dig_max, phys_min: p.phys_min, phys_max: p.phys_max }
    }

    /// Whether `other` is this reader with the read position of signal `i` set to `c`.
    pub open spec fn with_cursor(self, other: EdfReader, i: int, c: int) -> bool {
        &&& other.bytes@ == self.bytes@
        &&& other.filetype == self.filetype
        &&& other.signals@ == self.signals@
        &&& other.spr@ == self.spr@
        &&& other.header_len == self.header_len
        &&& other.record_len == self.record_len
        &&& other.records == self.records
        &&& other.declared_records == self.declared_records
        &&& other.duration_seconds == self.duration_seconds
        &&& other.cursors@ == self.cursors@.update(i, c as u64)
    }

    /// `InconsistentRecordCount` when the header's record count differs from the number of
    /// whole records the data holds; the reader goes by the data.
    pub fn record_count_warning(&self) -> (r: Option<EdfError>)
        ensures
            r == if self.declared_records != self.records {
                Some(EdfError::InconsistentRecordCount)
            } else {
                None::<EdfError>
            },
    {
        if self.declared_records < 0 || self.declared_records as u64 != self.records {
            Some(EdfError::InconsistentRecordCount)
        } else {
            None
        }
    }

    fn offset_of(&self, i: usize) -> (r: u64)
        requires
            self.wf(),
            i < self.spr@.len(),
        ensures
            r == block_offset(self.spr@, self.filetype.spec_width(), i as int),
    {
        let w = self.filetype.width();
        let mut off: u64 = 0;
        let mut k: usize = 0;
        while k < i
            invariant
                self.wf(),
                i < self.spr@.len(),
                w == self.filetype.spec_width(),
                k <= i,
                off == block_offset(self.spr@, w as nat, k as int),
            decreases i - k,
        {
            proof {
                crate::record::lemma_offset_monotone(self.spr@, w as nat, k + 1, self.spr@.len() as int);
            }
            off = off + self.spr[k] as u64 * w as u64;
            k = k + 1;
        }
        off
    }

    /// Reads up to `count` physical samples of ordinary signal `signal` from its read
    /// position on, and moves the position past them. Fewer come back at the end of the
    /// signal.
    #[verifier::rlimit(40)]
    pub fn read_samples(&mut self, signal: usize, count: usize) -> (r: Result<Vec<Physical>, EdfError>)
        requires
            old(self).wf(),
        ensures
            final(self).wf(),
            signal >= old(self).signals@.len() || old(self).signals@[signal as int].is_annotation ==> r
                == Err::<Vec<Physical>, EdfError>(EdfError::InvalidSignalIndex),
            r is Err ==> *final(self) == *old(self),
            signal < old(self).signals@.len() && !old(self).signals@[signal as int].is_annotation ==> {
                let i = signal as int;
                let c = old(self).cursors@[i] as int;
                let n = if count < old(self).sample_count(i) - c {
                    count as int
                } else {
                    old(self).sample_count(i) - c
                };
                let sc = old(self).scaling(i);
                if forall|k: int| 0 <= k < n ==> sc.dig_min <= #[trigger] old(self).code_at(i, c + k) <= sc.dig_max {
                    &&& r is Ok
                    &&& r->Ok_0@.len() == n
                    &&& forall|k: int|
                        0 <= k < n ==> (#[trigger] r->Ok_0@[k]).num == sc.physical_num(old(self).code_at(i, c + k))
                            && r->Ok_0@[k].den == sc.digital_span()
                    &&& old(self).with_cursor(*final(self), i, c + n)
                } else {
                    r == Err::<Vec<Physical>, EdfError>(EdfError::OutOfRange)
                }
            },
    {
        if signal >= self.signals.len() || self.signals[signal].is_annotation {
            return Err(EdfError::InvalidSignalIndex);
        }
        let blen = self.bytes.len();
        let info = self.signals[signal];
        let spr = self.spr[signal] as u64;
        let w = self.filetype.width();
        let c = self.cursors[signal];
        assert(0 <= self.records * spr) by (nonlinear_arith);
        assert(self.records * spr <= self.bytes@.len() * 99999999) by (nonlinear_arith)
            requires
                self.records <= self.bytes@.len(),
                spr <= 99999999,
        {
        }
        proof {
            vstd::arithmetic::div_mod::lemma_div_is_ordered_by_denominator(
                (self.bytes@.len() - self.header_len) as int, 1, self.record_len as int);
        }
        proof {
            reveal_with_fuel(crate::sample::modulus, 4);
            assert(signal_in(self.bytes@, self.filetype, self.signals@.len() as int, signal as int) == Some(info));
            lemma_sample_in_record(self.spr@, w as nat, signal as int, spr - 1);
            assert(spr <= self.record_len) by (nonlinear_arith)
                requires
                    (spr - 1) * w + w <= self.record_len,
                    w >= 2,
            ;
            vstd::arithmetic::div_mod::lemma_fundamental_div_mod(
                (self.bytes@.len() - self.header_len) as int, self.record_len as int);
            assert(self.records * self.record_len <= self.bytes@.len() - self.header_len) by (nonlinear_arith)
                requires
                    self.records == (self.bytes@.len() - self.header_len) / (self.record_len as int),
                    (self.bytes@.len() - self.header_len) == (self.record_len as int) * self.records + (self.bytes@.len() - self.header_len) % (self.record_len as int),
                    (self.bytes@.len() - self.header_len) % (self.record_len as int) >= 0,
            ;
            assert(self.records * spr <= self.records * self.record_len) by (nonlinear_arith)
                requires
                    spr <= self.record_len,
            ;
        }
        let total = self.records * spr;
        let left = total - c;
        let n: u64 = if (count as u64) < left {
            count as u64
        } else {
            left
        };
        let off = self.offset_of(signal);
        let sc = Scaling { dig_min: info.dig_min, dig_max: info.dig_max, phys_min: info.phys_min, phys_max: info.phys_max };
        let ghost me = *self;
        let mut out: Vec<Physical> = Vec::new();
        let mut k: u64 = 0;
        while k < n
            invariant
                *self == me,
                me == *old(self),
                me.wf(),
                blen == me.bytes@.len(),
                !me.signals@[signal as int].is_annotation,
                n == if (count as int) < total - c { count as int } else { total - c },
                signal < me.signals@.len(),
                info == me.signals@[signal as int],
                sc == me.scaling(signal as int),
                sc.wf(),
                spr == me.spr@[signal as int],
                w == me.filetype.spec_width(),
                c == me.cursors@[signal as int],
                total == me.sample_count(signal as int),
                c + n <= total,
                off == block_offset(me.spr@, w as nat, signal as int),
                k <= n,
                out@.len() == k,
                forall|m: int| 0 <= m < k ==> sc.dig_min <= #[trigger] me.code_at(signal as int, c + m) <= sc.dig_max,
                forall|m: int|
                    0 <= m < k ==> (#[trigger] out@[m]).num == sc.physical_num(me.code_at(signal as int, c + m))
                        && out@[m].den == sc.digital_span(),
            decreases n - k,
        {
            let q = c + k;
            let rec = q / spr;
            let j = q % spr;
            proof {
                assert(signal_in(me.bytes@, me.filetype, me.signals@.len() as int, signal as int) == Some(info));
                assert(spr >= 1);
                lemma_sample_in_record(me.spr@, w as nat, signal as int, j as int);
                assert(rec < me.records) by {
                    vstd::arithmetic::div_mod::lemma_div_is_ordered_by_denominator(q as int, spr as int, spr as int);
                    vstd::arithmetic::div_mod::lemma_fundamental_div_mod(q as int, spr as int);
                    assert(q < me.records * spr);
                    assert(rec < me.records) by (nonlinear_arith)
                        requires
                            q == spr * rec + j,
                            j >= 0,
                            q < me.records * spr,
                            spr > 0,
                    ;
                }
                vstd::arithmetic::div_mod::lemma_fundamental_div_mod(
                    (me.bytes@.len() - me.header_len) as int, me.record_len as int);
                assert(rec * me.record_len + me.record_len <= me.records * me.record_len) by (nonlinear_arith)
                    requires
                        rec < me.records,
                ;
                assert(me.bytes@.len() == blen);
                assert(me.records * me.record_len <= me.bytes@.len() - me.header_len) by (nonlinear_arith)
                    requires
                        me.records == (me.bytes@.len() - me.header_len) / (me.record_len as int),
                        (me.bytes@.len() - me.header_len) == (me.record_len as int) * me.records + (me.bytes@.len() - me.header_len) % (me.record_len as int),
                        (me.bytes@.len() - me.header_len) % (me.record_len as int) >= 0,
                ;
            }
            let base = rec * self.record_len;
            let inner = off + j * w as u64;
            assert(inner + w <= me.record_len);
            let pos = (self.header_len + base + inner) as usize;
            assert(pos == me.sample_pos(signal as int, q as int));
            let code = read_sample(&self.bytes, pos, w);
            assert(code == me.code_at(signal as int, c + k));
            if code < sc.dig_min || code > sc.dig_max {
                return Err(EdfError::OutOfRange);
            }
            out.push(sc.to_physical(code));
            k = k + 1;
        }
        let ghost before = self.cursors@;
        self.cursors.set(signal, c + n);
        proof {
            assert forall|m: int| 0 <= m < self.signals@.len() implies #[trigger] self.cursors@[m] <= self.records * self.spr@[m] by {
                if m != signal {
                    assert(self.cursors@[m] == before[m]);
                }
            }
        }
        Ok(out)
    }
}

impl EdfReader {
    /// Moves the read position of ordinary signal `signal` to the sample that `offset`
    /// names from `whence`; gives the new position.
    pub fn seek(&mut self, signal: usize, offset: i64, whence: Whence) -> (r: Result<u64, EdfError>)
        requires
            old(self).wf(),
        ensures
            final(self).wf(),
            r is Err ==> *final(self) == *old(self),
            signal >= old(self).signals@.len() || old(self).signals@[signal as int].is_annotation ==> r
                == Err::<u64, EdfError>(EdfError::InvalidSignalIndex),
            signal < old(self).signals@.len() && !old(self).signals@[signal as int].is_annotation ==> {
                let i = signal as int;
                let t = crate::seek::seek_target(
                    whence,
                    old(self).cursors@[i] as int,
                    old(self).sample_count(i),
                    offset as int,
                );
                if 0 <= t < old(self).sample_count(i) {
                    r == Ok::<u64, EdfError>(t as u64) && old(self).with_cursor(*final(self), i, t)
                } else {
                    r == Err::<u64, EdfError>(EdfError::SeekOutOfRange)
                }
            },
    {
        if signal >= self.signals.len() || self.signals[signal].is_annotation {
            return Err(EdfError::InvalidSignalIndex);
        }
        let spr = self.spr[signal];
        let blen = self.bytes.len();
        proof {
            self.lemma_sample_count_bound(signal as int);
        }
        let r = seek_position(spr, self.records, self.cursors[signal], offset, whence);
        proof {
            let t = crate::seek::seek_target(whence, self.cursors@[signal as int] as int, self.sample_count(signal as int), offset as int);
            if 0 <= t {
                vstd::arithmetic::div_mod::lemma_fundamental_div_mod(t, spr as int);
                if t < self.sample_count(signal as int) {
                    assert(t / (spr as int) < self.records) by (nonlinear_arith)
                        requires
                            t == spr * (t / (spr as int)) + t % (spr as int),
                            t % (spr as int) >= 0,
                            t < self.records * spr,
                            spr > 0,
                    ;
                } else {
                    assert(t / (spr as int) >= self.records) by (nonlinear_arith)
                        requires
                            t == spr * (t / (spr as int)) + t % (spr as int),
                            t % (spr as int) < spr,
                            t >= self.records * spr,
                            spr > 0,
                    ;
                }
            }
        }
        match r {
            Ok(p) => {
                let ghost before = self.cursors@;
                self.cursors.set(signal, p);
                proof {
                    assert forall|m: int| 0 <= m < self.signals@.len() implies #[trigger] self.cursors@[m]
                        <= self.records * self.spr@[m] by {
                        if m != signal {
                            assert(self.cursors@[m] == before[m]);
                        }
                    }
                }
                Ok(p)
            },
            Err(e) => Err(e),
        }
    }

    /// Moves the read position of ordinary signal `signal` to the sample taken at or just
    /// before time `t` (100 ns units from the start); gives the new position.
    pub fn seek_time(&mut self, signal: usize, t: i64) -> (r: Result<u64, EdfError>)
        requires
            old(self).wf(),
        ensures
            final(self).wf(),
            r is Err ==> *final(self) == *old(self),
            signal >= old(self).signals@.len() || old(self).signals@[signal as int].is_annotation ==> r
                == Err::<u64, EdfError>(EdfError::InvalidSignalIndex),
            signal < old(self).signals@.len() && !old(self).signals@[signal as int].is_annotation ==> {
                let i = signal as int;
                let d = old(self).duration_seconds * 10_000_000;
                let spr = old(self).spr@[i] as int;
                if 0 <= t && (t as int) / d < old(self).records {
                    r == Ok::<u64, EdfError>(((t as int) * spr / d) as u64) && old(self).with_cursor(
                        *final(self),
                        i,
                        (t as int) * spr / d,
                    )
                } else {
                    r == Err::<u64, EdfError>(EdfError::SeekOutOfRange)
                }
            },
    {
        if signal >= self.signals.len() || self.signals[signal].is_annotation {
            return Err(EdfError::InvalidSignalIndex);
        }
        let spr = self.spr[signal];
        if self.duration_seconds > 99999999 {
            proof {
                assert(field_value(self.bytes@, 244, 8) == Some(self.duration_seconds as int));
                lemma_field_value_bound(self.bytes@, 244, 8);
            }
        }
        let d = self.duration_seconds * 10_000_000;
        let blen = self.bytes.len();
        proof {
            assert(signal_in(self.bytes@, self.filetype, self.signals@.len() as int, signal as int) is Some);
            self.lemma_sample_count_bound(signal as int);
        }
        match locate_time(t, d, spr, self.records) {
            Ok((rec, off)) => {
                proof {
                    crate::seek::lemma_time_seek_is_sequential(t as int, d as int, spr as int);
                    vstd::arithmetic::div_mod::lemma_fundamental_div_mod(t as int, d as int);
                    assert(rec * spr + off < self.records * spr) by (nonlinear_arith)
                        requires
                            rec < self.records,
                            off < spr,
                    ;
                }
                let p = rec * spr as u64 + off as u64;
                assert(rec == (t as int) / (d as int));
                assert(off == ((t as int) % (d as int)) * spr / (d as int));
                assert(p == (t as int) * (spr as int) / (d as int));
                let ghost before = self.cursors@;
                self.cursors.set(signal, p);
                proof {
                    assert forall|m: int| 0 <= m < self.signals@.len() implies #[trigger] self.cursors@[m]
                        <= self.records * self.spr@[m] by {
                        if m != signal {
                            assert(self.cursors@[m] == before[m]);
                        }
                    }
                }
                Ok(p)
            },
            Err(e) => Err(e),
        }
    }

    proof fn lemma_sample_count_bound(&self, i: int)
        requires
            self.wf(),
            0 <= i < self.signals@.len(),
        ensures
            self.sample_count(i) <= self.bytes@.len(),
            self.spr@[i] >= 1,
    {
        let w = self.filetype.spec_width();
        let spr = self.spr@[i] as int;
        assert(signal_in(self.bytes@, self.filetype, self.signals@.len() as int, i) == Some(self.signals@[i]));
        lemma_sample_in_record(self.spr@, w, i, spr - 1);
        assert(spr <= self.record_len) by (nonlinear_arith)
            requires
                (spr - 1) * w + w <= self.record_len,
                w >= 2,
        ;
        let body = self.bytes@.len() - self.header_len;
        vstd::arithmetic::div_mod::lemma_fundamental_div_mod(body as int, self.record_len as int);
        assert(self.records * self.record_len <= body) by (nonlinear_arith)
            requires
                self.records == body / (self.record_len as int),
                body == (self.record_len as int) * self.records + body % (self.record_len as int),
                body % (self.record_len as int) >= 0,
        ;
        assert(self.records * spr <= self.records * self.record_len) by (nonlinear_arith)
            requires
                spr <= self.record_len,
        ;
    }
}

impl EdfReader {
    /// The bytes of signal `i`'s block in record `r`.
    pub open spec fn block(self, r: int, i: int) -> Seq<u8> {
        let w = self.filetype.spec_width();
        let start = self.header_len + r * self.record_len + block_offset(self.spr@, w, i);
        self.bytes@.subrange(start, start + self.spr@[i] * w)
    }

    /// The annotations of record `r` held by the annotation signals from index `i` on;
    /// the first entry of the record's first annotation signal, its time stamp, left out.
    pub open spec fn record_annotations(self, r: int, i: int, seen: bool) -> Seq<AnnotationModel>
        decreases self.signals@.len() - i,
    {
        if i < 0 || i >= self.signals@.len() {
            Seq::empty()
        } else if self.signals@[i].is_annotation {
            let b = block_annotations(self.block(r, i), 0);
            let kept = if seen || b.len() == 0 {
                b
            } else {
                b.subrange(1, b.len() as int)
            };
            kept + self.record_annotations(r, i + 1, true)
        } else {
            self.record_annotations(r, i + 1, seen)
        }
    }

    /// The annotations of the records from `r` on, record after record.
    pub open spec fn file_annotations(self, r: int) -> Seq<AnnotationModel>
        decreases self.records - r,
    {
        if r < 0 || r >= self.records {
            Seq::empty()
        } else {
            self.record_annotations(r, 0, false) + self.file_annotations(r + 1)
        }
    }

    fn copy_block(&self, r: u64, i: usize) -> (b: Vec<u8>)
        requires
            self.wf(),
            r < self.records,
            i < self.signals@.len(),
        ensures
            b@ == self.block(r as int, i as int),
    {
        let blen = self.bytes.len();
        let w = self.filetype.width();
        let spr = self.spr[i] as u64;
        proof {
            assert(signal_in(self.bytes@, self.filetype, self.signals@.len() as int, i as int) == Some(self.signals@[i as int]));
            lemma_sample_in_record(self.spr@, w as nat, i as int, spr - 1);
            let body = self.bytes@.len() - self.header_len;
            vstd::arithmetic::div_mod::lemma_fundamental_div_mod(body as int, self.record_len as int);
            assert(self.records * self.record_len <= body) by (nonlinear_arith)
                requires
                    self.records == body / (self.record_len as int),
                    body == (self.record_len as int) * self.records + body % (self.record_len as int),
                    body % (self.record_len as int) >= 0,
            ;
            assert(r * self.record_len + self.record_len <= self.records * self.record_len) by (nonlinear_arith)
                requires
                    r < self.records,
            ;
            assert((spr - 1) * w + w == spr * w) by (nonlinear_arith);
        }
        let off = self.offset_of(i);
        let start = (self.header_len + r * self.record_len + off) as usize;
        let end = start + (spr * w as u64) as usize;
        let mut out: Vec<u8> = Vec::new();
        let mut k: usize = start;
        while k < end
            invariant
                start <= k <= end <= self.bytes@.len(),
                out@ == self.bytes@.subrange(start as int, k as int),
            decreases end - k,
        {
            out.push(self.bytes[k]);
            assert(out@ =~= self.bytes@.subrange(start as int, k + 1));
            k = k + 1;
        }
        out
    }

    /// Every annotation of the file, in the order stored: record after record, and within
    /// a record annotation signal after annotation signal. The time stamp that opens each
    /// record is left out.
    #[verifier::rlimit(40)]
    pub fn annotations(&self) -> (r: Vec<Annotation>)
        requires
            self.wf(),
        ensures
            crate::annotation::models(r@) == self.file_annotations(0),
    {
        let ns = self.signals.len();
        let mut out: Vec<Annotation> = Vec::new();
        let mut r: u64 = 0;
        while r < self.records
            invariant
                self.wf(),
                ns == self.signals@.len(),
                r <= self.records,
                models(out@) + self.file_annotations(r as int) == self.file_annotations(0),
            decreases self.records - r,
        {
            let mut seen = false;
            let mut i: usize = 0;
            while i < ns
                invariant
                    self.wf(),
                    ns == self.signals@.len(),
                    r < self.records,
                    i <= ns,
                    models(out@) + self.record_annotations(r as int, i as int, seen) + self.file_annotations(r + 1)
                        == self.file_annotations(0),
                decreases ns - i,
            {
                if self.signals[i].is_annotation {
                    let b = self.copy_block(r, i);
                    let mut list = decode_block(&b);
                    if !seen && list.len() > 0 {
                        let _ = list.remove(0);
                    }
                    let ghost kept = models(list@);
                    let ghost prev = models(out@);
                    proof {
                        let full = block_annotations(self.block(r as int, i as int), 0);
                        if !seen && full.len() > 0 {
                            assert(kept =~= full.subrange(1, full.len() as int));
                        } else {
                            assert(kept =~= full);
                        }
                    }
                    out.append(&mut list);
                    assert(models(out@) =~= prev + kept);
                    seen = true;
                }
                i = i + 1;
            }
            r = r + 1;
        }
        assert(models(out@) =~= self.file_annotations(0));
        out
    }

    /// Annotation number `index` of the file, in the order of `annotations`.
    pub fn get_annotation(&self, index: usize) -> (r: Option<Annotation>)
        requires
            self.wf(),
        ensures
            index < self.file_annotations(0).len() ==> (r matches Some(a) && a.model()
                == self.file_annotations(0)[index as int]),
            index >= self.file_annotations(0).len() ==> r is None,
    {
        let mut all = self.annotations();
        if index < all.len() {
            let a = all.remove(index);
            assert(a.model() == models(all@.insert(index as int, a))[index as int]) by {
                assert(models(all@.insert(index as int, a))[index as int] == all@.insert(index as int, a)[index as int].model());
            }
            Some(a)
        } else {
            None
        }
    }
}

/// A numeric field of width `w` holds a number of at most nine digits.
pub proof fn lemma_field_value_bound(s: Seq<u8>, off: int, w: int)
    requires
        field_value(s, off, w) is Some,
    ensures
        -999_999_999 <= field_value(s, off, w)->Some_0 <= 999_999_999,
{
    let f = s.subrange(off, off + w);
    let e = content_end(f);
    let neg = f[0] == 45u8;
    let ds = if neg {
        f.subrange(1, e)
    } else {
        f.subrange(0, e)
    };
    crate::decimal::lemma_digit_value_bound(ds);
    crate::decimal::lemma_pow10_monotone(ds.len(), 9);
    reveal_with_fuel(crate::decimal::pow10, 10);
}

proof fn lemma_content_end_spaces(t: Seq<u8>, k: nat)
    ensures
        content_end(t + Seq::new(k, |i: int| 32u8)) == content_end(t),
    decreases k,
{
    if k > 0 {
        let sp = Seq::new(k, |i: int| 32u8);
        assert((t + sp).drop_last() =~= t + Seq::new((k - 1) as nat, |i: int| 32u8));
        lemma_content_end_spaces(t, (k - 1) as nat);
    } else {
        assert(t + Seq::new(k, |i: int| 32u8) =~= t);
    }
}

/// A numeric field written for `n` reads back as `n`.
pub proof fn lemma_num_field_round_trip(s: Seq<u8>, off: int, n: int, w: nat)
    requires
        0 <= off,
        off + w <= s.len(),
        w <= 9,
        crate::header::fits(n, w),
        s.subrange(off, off + w) == crate::header::num_field(n, w),
    ensures
        field_value(s, off, w as int) == Some(n),
{
    let t = crate::header::int_text(n);
    let m: nat = if n < 0 {
        (-n) as nat
    } else {
        n as nat
    };
    crate::decimal::lemma_digits(m);
    let d = crate::decimal::digits(m);
    lemma_content_end_spaces(t, (w - t.len()) as nat);
    assert(t.last() == d.last());
    assert(is_digit(d[d.len() - 1]));
    assert(content_end(t) == t.len()) by {
        reveal_with_fuel(content_end, 2);
    }
    let f = s.subrange(off, off + w as int);
    assert(f[0] == t[0]);
    if n < 0 {
        assert(f.subrange(1, t.len() as int) =~= d);
    } else {
        assert(is_digit(d[0]));
        assert(f.subrange(0, t.len() as int) =~= d);
    }
}

proof fn lemma_sub_sub(b: Seq<u8>, n: int, x: int, y: int)
    requires
        0 <= x <= y <= n <= b.len(),
    ensures
        b.subrange(0, n).subrange(x, y) == b.subrange(x, y),
{
    assert(b.subrange(0, n).subrange(x, y) =~= b.subrange(x, y));
}

/// The parameters of signal `i` of a header this library wrote read back as written.
#[verifier::rlimit(40)]
proof fn lemma_signal_parses(e: Edf, h: Header, b: Seq<u8>, i: int)
    requires
        e.wf(),
        e.state == SessionState::OpenForWrite,
        e.header_matches(h),
        header_fits(h),
        256 + 256 * h.signals@.len() <= b.len(),
        header_bytes(h) == b.subrange(0, 256 + 256 * h.signals@.len() as int),
        0 <= i < h.signals@.len(),
    ensures
        ({
            let p = h.signals@[i];
            signal_in(b, e.filetype, h.signals@.len() as int, i) matches Some(info) && info.samples_per_record
                == p.samples_per_record && info.dig_min == p.dig_min && info.dig_max == p.dig_max
                && info.phys_min == p.phys_min && info.phys_max == p.phys_max
        }),
        b.subrange(256 + 16 * i, 256 + 16 * i + 16) == crate::header::text_field(h.signals@[i].label@, 16),
{
    let ns = h.signals@.len() as int;
    let hl = 256 + 256 * ns;
    let p = h.signals@[i];
    crate::header::lemma_header_signal(h, i);
    assert(crate::header::signal_fits(p));
    lemma_sub_sub(b, hl, 256 + 16 * i, 256 + 16 * i + 16);
    lemma_sub_sub(b, hl, 256 + 216 * ns + 8 * i, 256 + 216 * ns + 8 * i + 8);
    lemma_sub_sub(b, hl, 256 + 120 * ns + 8 * i, 256 + 120 * ns + 8 * i + 8);
    lemma_sub_sub(b, hl, 256 + 128 * ns + 8 * i, 256 + 128 * ns + 8 * i + 8);
    lemma_sub_sub(b, hl, 256 + 104 * ns + 8 * i, 256 + 104 * ns + 8 * i + 8);
    lemma_sub_sub(b, hl, 256 + 112 * ns + 8 * i, 256 + 112 * ns + 8 * i + 8);
    lemma_num_field_round_trip(b, 256 + 216 * ns + 8 * i, p.samples_per_record as int, 8);
    lemma_num_field_round_trip(b, 256 + 120 * ns + 8 * i, p.dig_min as int, 8);
    lemma_num_field_round_trip(b, 256 + 128 * ns + 8 * i, p.dig_max as int, 8);
    lemma_num_field_round_trip(b, 256 + 104 * ns + 8 * i, p.phys_min as int, 8);
    lemma_num_field_round_trip(b, 256 + 112 * ns + 8 * i, p.phys_max as int, 8);
    reveal_with_fuel(crate::sample::modulus, 4);
    match slot(e.annotation_position, e.signals@.len() as int, e.annotation_signals as int, i) {
        Some(k) => {
            assert(crate::edf::same_param(h.signals@[i], e.signals@[k]));
            assert(crate::edf::signal_ok(e.signals@[k], e.filetype));
        },
        None => {
            assert(crate::edf::is_annotation_param(h.signals@[i], e.filetype));
        },
    }
}

/// A file that a write session produced opens for reading.
#[verifier::rlimit(40)]
pub proof fn lemma_written_file_opens(e: Edf, b: Seq<u8>)
    requires
        e.wf(),
        e.state == SessionState::OpenForWrite,
        e.file_of(b),
    ensures
        header_valid(b),
        filetype_in(b) == Some(e.filetype),
        signal_count_in(b) == Some(e.total_signals()),
        field_value(b, 236, 8) == Some(e.records@.len() as int),
{
    reveal(Edf::file_of);
    let h = choose|h: Header|
        e.header_matches(h) && header_fits(h) && #[trigger] header_bytes(h) == b.subrange(
            0,
            256 + 256 * e.total_signals(),
        );
    let ns = h.signals@.len() as int;
    let hl = 256 + 256 * ns;
    crate::header::lemma_header_globals(h);
    crate::record::lemma_offset_monotone(e.all_spr(), e.filetype.spec_width(), 0, e.all_spr().len() as int);
    let rl = record_len(e.all_spr(), e.filetype.spec_width());
    assert(0 <= e.records@.len() * rl) by (nonlinear_arith)
        requires
            rl >= 0,
    ;
    assert(b[0] == header_bytes(h)[0]);
    lemma_sub_sub(b, hl, 236, 244);
    lemma_sub_sub(b, hl, 244, 252);
    lemma_sub_sub(b, hl, 252, 256);
    reveal_with_fuel(crate::decimal::pow10, 9);
    assert(crate::decimal::pow10(8) == 100000000);
    assert(crate::decimal::pow10(4) == 10000);
    crate::header::lemma_fits(ns, 4);
    lemma_num_field_round_trip(b, 236, h.records as int, 8);
    lemma_num_field_round_trip(b, 244, 1, 8);
    lemma_num_field_round_trip(b, 252, ns, 4);
    assert forall|i: int| 0 <= i < ns implies (#[trigger] signal_in(
        b,
        filetype_in(b)->Some_0,
        signal_count_in(b)->Some_0,
        i,
    )) is Some by {
        lemma_signal_parses(e, h, b, i);
    }
}

/// A file that a write session produced, once opened, has the session's layout and
/// records.
#[verifier::rlimit(40)]
pub proof fn lemma_written_layout(e: Edf, rd: EdfReader)
    requires
        e.wf(),
        e.state == SessionState::OpenForWrite,
        e.file_of(rd.bytes@),
        rd.wf(),
    ensures
        rd.records == e.records@.len(),
        rd.spr@ == e.all_spr(),
        rd.filetype == e.filetype,
        rd.header_len == 256 + 256 * e.total_signals(),
        rd.record_len == record_len(e.all_spr(), e.filetype.spec_width()),
        rd.signals@.len() == e.total_signals(),
{
    reveal(Edf::file_of);
    let b = rd.bytes@;
    lemma_written_file_opens(e, b);
    let h = choose|h: Header|
        e.header_matches(h) && header_fits(h) && #[trigger] header_bytes(h) == b.subrange(
            0,
            256 + 256 * e.total_signals(),
        );
    let ns = e.total_signals();
    let w = e.filetype.spec_width();
    assert forall|i: int| 0 <= i < ns implies #[trigger] rd.spr@[i] == e.all_spr()[i] by {
        lemma_signal_parses(e, h, b, i);
        assert(signal_in(b, rd.filetype, ns, i) == Some(rd.signals@[i]));
        crate::header::lemma_header_globals(h);
    }
    assert(rd.spr@ =~= e.all_spr());
    let len = record_len(e.all_spr(), w);
    let nrec = e.records@.len() as int;
    assert(rd.record_len == len);
    assert(b.len() - rd.header_len == nrec * len);
    vstd::arithmetic::div_mod::lemma_div_multiples_vanish(nrec, len);
    assert(nrec * len == len * nrec) by (nonlinear_arith);
}

/// A file that a write session produced, once opened, has the session's records and
/// layout, and every ordinary signal reads back, sample for sample, the codes written.
pub proof fn lemma_written_file_reads_back(e: Edf, rd: EdfReader, s: int, q: int)
    requires
        e.wf(),
        e.state == SessionState::OpenForWrite,
        e.file_of(rd.bytes@),
        rd.wf(),
        0 <= s < e.signals@.len(),
        0 <= q < e.records@.len() * e.signals@[s].samples_per_record,
    ensures
        rd.records == e.records@.len(),
        rd.spr@ == e.all_spr(),
        ({
            let spr = e.signals@[s].samples_per_record as int;
            let m = ordinary_index(e.annotation_position, e.signals@.len() as int, e.annotation_signals as int, s);
            rd.code_at(m, q) == e.records@[q / spr]@[s]@[q % spr]
        }),
{
    reveal(Edf::file_of);
    lemma_written_layout(e, rd);
    let nrec = e.records@.len() as int;
    let spr = e.signals@[s].samples_per_record as int;
    let m = ordinary_index(e.annotation_position, e.signals@.len() as int, e.annotation_signals as int, s);
    crate::edf::lemma_ordinary_index(e.annotation_position, e.signals@.len() as int, e.annotation_signals as int, s);
    assert(e.all_spr()[m] == spr);
    assert(spr >= 1);
    vstd::arithmetic::div_mod::lemma_fundamental_div_mod(q, spr);
    let rr = q / spr;
    let j = q % spr;
    assert(rr < nrec) by (nonlinear_arith)
        requires
            q == spr * rr + j,
            j >= 0,
            q < nrec * spr,
            spr > 0,
    ;
    assert(rd.sample_pos(m, q) == e.sample_pos(rr, s, j));
}

/// Whether `rd` opened a file that the write session `e` produced.
pub open spec fn opened_from(e: Edf, rd: EdfReader) -> bool {
    &&& e.wf()
    &&& e.state == SessionState::OpenForWrite
    &&& e.file_of(rd.bytes@)
    &&& rd.wf()
}

/// In a file that a write session produced, the reader takes exactly the annotation
/// signals for annotation signals.
pub proof fn lemma_annotation_flags(e: Edf, rd: EdfReader, i: int)
    requires
        opened_from(e, rd),
        0 <= i < e.total_signals(),
    ensures
        rd.signals@[i].is_annotation == slot(
            e.annotation_position,
            e.signals@.len() as int,
            e.annotation_signals as int,
            i,
        ) is None,
{
    reveal(Edf::file_of);
    let b = rd.bytes@;
    lemma_written_layout(e, rd);
    lemma_written_file_opens(e, b);
    let h = choose|h: Header|
        e.header_matches(h) && header_fits(h) && #[trigger] header_bytes(h) == b.subrange(
            0,
            256 + 256 * e.total_signals(),
        );
    lemma_signal_parses(e, h, b, i);
    assert(signal_in(b, rd.filetype, e.total_signals(), i) == Some(rd.signals@[i]));
    let lab = crate::edf::annotation_label(e.filetype);
    match slot(e.annotation_position, e.signals@.len() as int, e.annotation_signals as int, i) {
        Some(k) => {
            assert(crate::edf::same_param(h.signals@[i], e.signals@[k]));
            assert(crate::header::text_field(e.signals@[k].label@, 16) != lab);
        },
        None => {
            assert(crate::edf::is_annotation_param(h.signals@[i], e.filetype));
            assert(crate::header::text_field(lab, 16) =~= lab);
        },
    }
}

#[verifier::rlimit(40)]
proof fn lemma_annotation_block(e: Edf, rd: EdfReader, r: int, i: int)
    requires
        opened_from(e, rd),
        0 <= r < e.records@.len(),
        0 <= i < e.total_signals(),
        slot(e.annotation_position, e.signals@.len() as int, e.annotation_signals as int, i) is None,
    ensures
        block_annotations(rd.block(r, i), 0) == crate::annotation::block_head(e.block_start(r, i))
            + models(e.annotations@.subrange(e.fill_before(r, i), e.fill_before(r, i + 1))),
{
    reveal(Edf::file_of);
    lemma_written_layout(e, rd);
    let w = e.filetype.spec_width();
    assert(e.all_spr()[i] == crate::edf::annotation_spr(e.filetype) as u32);
    crate::edf::lemma_annotation_spr(e.filetype);
    assert(rd.spr@[i] == e.all_spr()[i]);
    assert(rd.spr@[i] * w == 114);
    let bytes = e.annotation_block_bytes(r, i);
    e.lemma_fill_bounds(r, i);
    e.lemma_fill_bounds(r, i + 1);
    let len = record_len(e.all_spr(), w);
    crate::record::lemma_offset_monotone(e.all_spr(), w, i + 1, e.total_signals());
    crate::record::lemma_offset_monotone(e.all_spr(), w, i, i + 1);
    assert(r * len + len <= e.records@.len() * len) by (nonlinear_arith)
        requires
            r < e.records@.len(),
            len >= 0,
    ;
    assert(e.block_pos(r, i) + 114 <= rd.bytes@.len());
    assert(rd.bytes@.subrange(e.block_pos(r, i), e.block_pos(r, i) + ANNOTATION_BYTES)
        == e.annotation_block_bytes(r, i));
    assert(rd.block(r, i) == rd.bytes@.subrange(e.block_pos(r, i), e.block_pos(r, i) + 114));
    let v = crate::annotation::block_head(e.block_start(r, i)) + models(
        e.annotations@.subrange(e.fill_before(r, i), e.fill_before(r, i + 1)),
    );
    let t = crate::annotation::tals(v);
    assert(bytes.len() == 114);
    assert(t.len() <= 114);
    let rest = Seq::new((114 - t.len()) as nat, |k: int| 0u8);
    assert forall|m: int| 0 <= m < v.len() implies crate::annotation::valid_model(#[trigger] v[m]) by {
        if e.block_start(r, i) is Some && m == 0 {
            assert(r * 10_000_000 <= 0x7fff_ffff_ffff_ffff) by (nonlinear_arith)
                requires
                    r < 100_000_000,
            ;
        } else {
            let hd = crate::annotation::block_head(e.block_start(r, i));
            let hl = hd.len();
            let sub = e.annotations@.subrange(e.fill_before(r, i), e.fill_before(r, i + 1));
            let q = e.fill_before(r, i) + m - hl;
            assert(v[m] == models(sub)[m - hl]);
            assert(models(sub)[m - hl] == sub[m - hl].model());
            assert(sub[m - hl] == e.annotations@[q]);
            assert(crate::annotation::valid_model(e.annotations@[q].model()));
        }
    }
    crate::annotation::lemma_block_round_trip(Seq::empty(), v, rest);
    assert(Seq::<u8>::empty() + t + rest =~= bytes);
}

proof fn lemma_record_annotations(e: Edf, rd: EdfReader, r: int, i: int)
    requires
        opened_from(e, rd),
        0 <= r < e.records@.len(),
        0 <= i <= e.total_signals(),
    ensures
        rd.record_annotations(
            r,
            i,
            i > crate::edf::insert_index(e.annotation_position, e.signals@.len() as int),
        ) == models(e.annotations@).subrange(e.fill_before(r, i), e.fill_before(r, e.total_signals())),
    decreases e.total_signals() - i,
{
    lemma_written_layout(e, rd);
    let total = e.total_signals();
    let k = crate::edf::insert_index(e.annotation_position, e.signals@.len() as int);
    let m = models(e.annotations@);
    e.lemma_fill_bounds(r, i);
    if i == total {
        assert(m.subrange(e.fill_before(r, i), e.fill_before(r, i)) =~= Seq::<AnnotationModel>::empty());
    } else {
        lemma_record_annotations(e, rd, r, i + 1);
        lemma_annotation_flags(e, rd, i);
        lemma_fill_chain(e, r, i + 1);
        let from = e.fill_before(r, i);
        let to = e.fill_before(r, i + 1);
        let end = e.fill_before(r, total);
        match slot(e.annotation_position, e.signals@.len() as int, e.annotation_signals as int, i) {
            Some(_) => {
                assert(to == from);
            },
            None => {
                lemma_record_annotation_step(e, rd, r, i);
            },
        }
    }
}

#[verifier::rlimit(60)]
proof fn lemma_record_annotation_step(e: Edf, rd: EdfReader, r: int, i: int)
    requires
        opened_from(e, rd),
        0 <= r < e.records@.len(),
        0 <= i < e.total_signals(),
        slot(e.annotation_position, e.signals@.len() as int, e.annotation_signals as int, i) is None,
        rd.signals@[i].is_annotation,
        rd.record_annotations(
            r,
            i + 1,
            i + 1 > crate::edf::insert_index(e.annotation_position, e.signals@.len() as int),
        ) == models(e.annotations@).subrange(e.fill_before(r, i + 1), e.fill_before(r, e.total_signals())),
        e.fill_before(r, i + 1) <= e.fill_before(r, e.total_signals()),
    ensures
        rd.record_annotations(
            r,
            i,
            i > crate::edf::insert_index(e.annotation_position, e.signals@.len() as int),
        ) == models(e.annotations@).subrange(e.fill_before(r, i), e.fill_before(r, e.total_signals())),
{
    lemma_written_layout(e, rd);
    let k = crate::edf::insert_index(e.annotation_position, e.signals@.len() as int);
    let m = models(e.annotations@);
    e.lemma_fill_bounds(r, i);
    e.lemma_fill_bounds(r, i + 1);
    e.lemma_fill_bounds(r, e.total_signals());
    let from = e.fill_before(r, i);
    let to = e.fill_before(r, i + 1);
    let end = e.fill_before(r, e.total_signals());
    lemma_annotation_block(e, rd, r, i);
    let full = block_annotations(rd.block(r, i), 0);
    let mid = models(e.annotations@.subrange(from, to));
    assert(mid =~= m.subrange(from, to));
    if i == k {
        assert(full =~= seq![crate::annotation::keeping(r * 10_000_000)] + mid);
        assert(full.subrange(1, full.len() as int) =~= mid);
    } else {
        assert(full =~= mid);
    }
    assert(m.subrange(from, to) + m.subrange(to, end) =~= m.subrange(from, end));
}

proof fn lemma_fill_chain(e: Edf, r: int, i: int)
    requires
        0 <= r,
        0 <= i <= e.total_signals(),
    ensures
        e.fill_before(r, i) <= e.fill_before(r, e.total_signals()),
    decreases e.total_signals() - i,
{
    if i < e.total_signals() {
        e.lemma_fill_bounds(r, i);
        lemma_fill_chain(e, r, i + 1);
    }
}

proof fn lemma_file_annotations(e: Edf, rd: EdfReader, r: int)
    requires
        opened_from(e, rd),
        0 <= r <= e.records@.len(),
    ensures
        rd.file_annotations(r) == models(e.annotations@).subrange(
            e.file_fill(r),
            e.file_fill(e.records@.len() as int),
        ),
    decreases e.records@.len() - r,
{
    lemma_written_layout(e, rd);
    let nrec = e.records@.len() as int;
    let m = models(e.annotations@);
    lemma_file_fill_monotone(e, 0, nrec);
    if r == nrec {
        assert(m.subrange(e.file_fill(r), e.file_fill(r)) =~= Seq::<AnnotationModel>::empty());
    } else {
        lemma_file_annotations(e, rd, r + 1);
        lemma_record_annotations(e, rd, r, 0);
        assert(e.fill_before(r, 0) == e.file_fill(r));
        assert(e.fill_before(r, e.total_signals()) == e.file_fill(r + 1));
        lemma_file_fill_monotone(e, r + 1, nrec);
        e.lemma_fill_bounds(r, 0);
        lemma_fill_chain(e, r, 0);
        assert(m.subrange(e.file_fill(r), e.file_fill(r + 1)) + m.subrange(e.file_fill(r + 1), e.file_fill(nrec))
            =~= m.subrange(e.file_fill(r), e.file_fill(nrec)));
    }
}

proof fn lemma_file_fill_monotone(e: Edf, a: int, b: int)
    requires
        0 <= a <= b,
    ensures
        e.file_fill(a) <= e.file_fill(b),
        e.file_fill(b) <= e.annotations@.len(),
    decreases b - a,
{
    if b > 0 {
        e.lemma_fill_bounds(b - 1, e.total_signals());
    }
    if a < b {
        lemma_file_fill_monotone(e, a, b - 1);
        e.lemma_fill_bounds(b - 1, 0);
        lemma_fill_chain(e, b - 1, 0);
        if b - 1 > 0 {
            assert(e.fill_before(b - 1, 0) == e.file_fill(b - 1));
        }
    }
}

/// Every annotation queued in a write session is read back, in order, from the file the
/// session produced, when the file holds them all.
pub proof fn lemma_written_annotations_read_back(e: Edf, rd: EdfReader)
    requires
        opened_from(e, rd),
        e.file_fill(e.records@.len() as int) == e.annotations@.len(),
    ensures
        rd.file_annotations(0) == models(e.annotations@),
{
    lemma_file_annotations(e, rd, 0);
    assert(models(e.annotations@).subrange(0, e.annotations@.len() as int) =~= models(e.annotations@));
}

pub proof fn lemma_record_len_push(spr: Seq<u32>, x: u32, w: nat)
    ensures
        record_len(spr.push(x), w) == record_len(spr, w) + x * w,
{
    let t = spr.push(x);
    lemma_offset_prefix(spr, x, w, spr.len() as int);
}

proof fn lemma_offset_prefix(spr: Seq<u32>, x: u32, w: nat, i: int)
    requires
        0 <= i <= spr.len(),
    ensures
        block_offset(spr.push(x), w, i) == block_offset(spr, w, i),
    decreases i,
{
    if i > 0 {
        lemma_offset_prefix(spr, x, w, i - 1);
    }
}

} // verus!
